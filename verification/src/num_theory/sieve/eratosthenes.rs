//! The sieve of Eratosthenes over the odd numbers, one bit each.

use vstd::prelude::*;
use vstd::arithmetic::div_mod::{lemma_fundamental_div_mod, lemma_mod_multiples_basic};
use crate::num_theory::gcd::{
    lemma_divides_combination, lemma_divides_multiple, lemma_divides_product,
    lemma_divides_witness, lemma_divisor_of_odd, lemma_odd_divisor_of_even,
};

verus! {

/// `m` is a prime number.
pub open spec fn prime(m: int) -> bool {
    m >= 2 && forall|d: int| 2 <= d < m ==> #[trigger] (m % d) != 0
}

/// The number of primes up to `m`.
pub open spec fn prime_count(m: int) -> nat
    decreases m,
{
    if m < 2 {
        0
    } else {
        prime_count(m - 1) + if prime(m) {
            1nat
        } else {
            0nat
        }
    }
}

/// The primes up to `m`, in ascending order.
pub open spec fn primes_upto(m: int) -> Seq<usize>
    decreases m,
{
    if m < 2 {
        Seq::empty()
    } else if prime(m) {
        primes_upto(m - 1).push(m as usize)
    } else {
        primes_upto(m - 1)
    }
}

/// `m` has an odd divisor `d` with `3 <= d < j` and `d * d <= m`.
pub open spec fn crossed(m: int, j: int) -> bool {
    exists|d: int| #[trigger] small_factor(m, j, d)
}

/// `d` is an odd divisor of `m` with `3 <= d < j` and `d * d <= m`.
pub open spec fn small_factor(m: int, j: int, d: int) -> bool {
    3 <= d < j && d % 2 == 1 && m % d == 0 && d * d <= m
}

/// Bit `c` of `w` is set.
pub open spec fn bit(w: u64, c: u64) -> bool {
    (w >> c) & 1 == 1
}

/// Bit `k` of the words of `table`, taken as one long row of bits, is set.
pub open spec fn bit_at(table: Seq<u64>, k: int) -> bool {
    bit(table[k / 64], (k % 64) as u64)
}

/// A number with a small odd factor is not prime.
pub proof fn lemma_crossed_composite(m: int, j: int)
    requires
        crossed(m, j),
    ensures
        !prime(m),
{
    let d = choose|d: int| #[trigger] small_factor(m, j, d);
    assert(d < m) by (nonlinear_arith)
        requires
            d >= 3,
            d * d <= m,
    ;
}

/// An odd number from three on that is not prime has an odd divisor from
/// three on whose square it is not below.
pub proof fn lemma_composite_crossed(m: int, j: int)
    requires
        m >= 3,
        m % 2 == 1,
        !prime(m),
        j * j > m,
        j >= 0,
    ensures
        crossed(m, j),
{
    let d0 = choose|d: int| 2 <= d < m && #[trigger] (m % d) == 0;
    lemma_divides_witness(d0, m);
    let q = m / d0;
    assert(q >= 2 && q < m) by (nonlinear_arith)
        requires
            m == d0 * q,
            2 <= d0 < m,
    ;
    assert(d0 * q == q * d0) by (nonlinear_arith);
    lemma_divides_multiple(q, d0);
    let d = if d0 <= q {
        d0
    } else {
        q
    };
    assert(d * d <= m) by (nonlinear_arith)
        requires
            m == d0 * q,
            d0 >= 2,
            q >= 2,
            d == if d0 <= q {
                d0
            } else {
                q
            },
    ;
    lemma_divisor_of_odd(d, m);
    assert(d < j) by (nonlinear_arith)
        requires
            d * d <= m,
            j * j > m,
            j >= 0,
            d >= 0,
    ;
    assert(small_factor(m, j, d));
}

/// Below `j * j`, an odd number from three on is prime exactly if it has
/// no small odd factor.
pub proof fn lemma_prime_iff_not_crossed(m: int, j: int)
    requires
        m >= 3,
        m % 2 == 1,
        j * j > m,
        j >= 0,
    ensures
        prime(m) <==> !crossed(m, j),
{
    if crossed(m, j) {
        lemma_crossed_composite(m, j);
    }
    if !prime(m) {
        lemma_composite_crossed(m, j);
    }
}

/// Raising the bound past an odd `j` adds the multiples of `j` from
/// `j * j` on to the numbers with a small odd factor.
pub proof fn lemma_crossed_step(m: int, j: int)
    requires
        j >= 3,
        j % 2 == 1,
    ensures
        crossed(m, j + 2) <==> crossed(m, j) || (m % j == 0 && j * j <= m),
{
    let next = j + 2;
    if crossed(m, next) {
        let d = choose|d: int| #[trigger] small_factor(m, next, d);
        if d < j {
            assert(small_factor(m, j, d));
        }
    }
    if crossed(m, j) {
        let d = choose|d: int| #[trigger] small_factor(m, j, d);
        assert(small_factor(m, next, d));
    }
    if m % j == 0 && j * j <= m {
        assert(small_factor(m, next, j));
    }
}

/// The multiples of a number with a small odd factor, from its square on,
/// have that factor too.
pub proof fn lemma_crossed_multiple(m: int, j: int)
    requires
        j >= 3,
        crossed(j, j),
        m % j == 0,
        j * j <= m,
    ensures
        crossed(m, j),
{
    let d = choose|d: int| #[trigger] small_factor(j, j, d);
    lemma_divides_witness(j, m);
    lemma_divides_product(d, j, m / j);
    assert((m / j) * j == j * (m / j)) by (nonlinear_arith);
    assert(d * d <= m) by (nonlinear_arith)
        requires
            d * d <= j,
            j * j <= m,
            j >= 3,
    ;
    assert(small_factor(m, j, d));
}

/// Between two consecutive odd multiples of an odd `j` there is none.
pub proof fn lemma_between_multiples(j: int, k: int, c: int)
    requires
        j >= 3,
        j % 2 == 1,
        (2 * k + 1) % j == 0,
        k < c < k + j,
    ensures
        (2 * c + 1) % j != 0,
{
    if (2 * c + 1) % j == 0 {
        lemma_divides_combination(j, 2 * c + 1, 2 * k + 1);
        lemma_odd_divisor_of_even(j, 2 * (c - k));
        lemma_divides_witness(j, c - k);
        let q = (c - k) / j;
        assert(false) by (nonlinear_arith)
            requires
                c - k == j * q,
                0 < c - k < j,
                j >= 3,
        ;
    }
}

/// Clearing bit `b` of a word clears that bit and keeps every other.
pub proof fn lemma_bit_clear(w: u64, b: u64, c: u64)
    requires
        b < 64,
        c < 64,
    ensures
        bit(w & !(1u64 << b), c) == (c != b && bit(w, c)),
{
    assert(((w & !(1u64 << b)) >> c) & 1 == 1 <==> (c != b && (w >> c) & 1 == 1)) by (bit_vector)
        requires
            b < 64,
            c < 64,
    ;
}

/// Masking a word with all ones shifted right by `s` keeps the bits below
/// `64 - s` and clears the others; every bit of the word of all ones is
/// set, none of the word zero.
pub proof fn lemma_bit_mask(w: u64, s: u64, c: u64)
    requires
        s < 64,
        c < 64,
    ensures
        bit(w & (0xffff_ffff_ffff_ffffu64 >> s), c) == (c + s < 64 && bit(w, c)),
        bit(0xffff_ffff_ffff_ffffu64, c),
        !bit(0u64, c),
{
    assert(((w & (0xffff_ffff_ffff_ffffu64 >> s)) >> c) & 1 == 1 <==> (c + s < 64 && (w >> c) & 1
        == 1)) by (bit_vector)
        requires
            s < 64,
            c < 64,
    ;
    assert((0xffff_ffff_ffff_ffffu64 >> c) & 1 == 1) by (bit_vector)
        requires
            c < 64,
    ;
    assert((0u64 >> c) & 1 == 0) by (bit_vector)
        requires
            c < 64,
    ;
}

/// The number of odd primes that are at most `n` and less than `2 k`.
pub open spec fn odd_prime_count(n: int, k: int) -> nat
    decreases k,
{
    if k <= 0 {
        0
    } else {
        odd_prime_count(n, k - 1) + if 2 * k - 1 <= n && prime(2 * k - 1) {
            1nat
        } else {
            0nat
        }
    }
}

/// The odd primes that are at most `n` and less than `2 k`, in ascending
/// order, after the prime two.
pub open spec fn primes_before(n: int, k: int) -> Seq<usize>
    decreases k,
{
    if k <= 0 {
        seq![2usize]
    } else if 2 * k - 1 <= n && prime(2 * k - 1) {
        primes_before(n, k - 1).push((2 * k - 1) as usize)
    } else {
        primes_before(n, k - 1)
    }
}

/// Two is prime, one is not, and no other even number is.
pub proof fn lemma_even_primes(m: int)
    ensures
        prime(2),
        !prime(1),
        m > 2 && m % 2 == 0 ==> !prime(m),
{
    assert forall|d: int| 2 <= d < 2 implies #[trigger] (2int % d) != 0 by {}
}

/// Counting the odd primes index by index counts the primes, but for two.
pub proof fn lemma_count_by_index(n: int, k: int)
    requires
        n >= 2,
        k >= 1,
    ensures
        prime_count(if 2 * k <= n {
            2 * k
        } else {
            n
        }) == 1 + odd_prime_count(n, k),
        primes_upto(if 2 * k <= n {
            2 * k
        } else {
            n
        }) == primes_before(n, k),
        odd_prime_count(n, k) <= k,
        primes_before(n, k).len() == 1 + odd_prime_count(n, k),
    decreases k,
{
    lemma_even_primes(2 * k);
    let odd = 2 * k - 1;
    assert(odd_prime_count(n, k) == odd_prime_count(n, k - 1) + if odd <= n && prime(odd) {
        1nat
    } else {
        0nat
    });
    assert(primes_before(n, k) == if odd <= n && prime(odd) {
        primes_before(n, k - 1).push(odd as usize)
    } else {
        primes_before(n, k - 1)
    });
    if k == 1 {
        assert(prime_count(1) == 0);
        assert(prime_count(2) == prime_count(1) + 1);
        assert(primes_upto(1) =~= Seq::<usize>::empty());
        assert(primes_upto(2) == primes_upto(1).push(2usize));
        assert(odd_prime_count(n, 0) == 0);
        assert(primes_before(n, 0) == seq![2usize]);
        assert(primes_upto(2) =~= seq![2usize]);
    } else {
        lemma_count_by_index(n, k - 1);
        if 2 * k <= n {
            assert(prime_count(2 * k) == prime_count(odd));
            assert(primes_upto(2 * k) == primes_upto(odd));
            assert(prime_count(odd) == prime_count(odd - 1) + if prime(odd) {
                1nat
            } else {
                0nat
            });
        } else if odd <= n {
            assert(prime_count(odd) == prime_count(odd - 1) + if prime(odd) {
                1nat
            } else {
                0nat
            });
        }
    }
}

/// A sieve of Eratosthenes that knows the primes up to a limit.
pub struct SieveEratosthenes(Vec<u64>);

impl SieveEratosthenes {
    /// The largest number that the sieve knows about.
    pub closed spec fn limit(&self) -> nat {
        self.0@[self.0@.len() - 1] as nat
    }

    /// The table holds one bit for every odd number up to the limit, set
    /// exactly for the primes, and the limit itself behind the bits.
    pub closed spec fn wf(&self) -> bool {
        let n = self.limit() as int;
        let blocks = n / 128 + 1;
        &&& n >= 1
        &&& n <= usize::MAX
        &&& self.0@.len() == blocks + 1
        &&& forall|k: int|
            0 <= k < 64 * blocks ==> (#[trigger] bit_at(self.0@, k) <==> 2 * k + 1 <= n && prime(
                2 * k + 1,
            ))
    }

    /// Clears bit `k` of the table.
    fn clear(table: &mut Vec<u64>, k: usize)
        requires
            k < 64 * (old(table)@.len() - 1),
        ensures
            final(table)@.len() == old(table)@.len(),
            final(table)@[old(table)@.len() - 1] == old(table)@[old(table)@.len() - 1],
            forall|c: int|
                0 <= c < 64 * (old(table)@.len() - 1) ==> (#[trigger] bit_at(final(table)@, c)
                    <==> c != k && bit_at(old(table)@, c)),
    {
        let i = k / 64;
        let b = (k % 64) as u64;
        let w = table[i];
        table[i] = w & !(1u64 << b);
        proof {
            assert forall|c: int| 0 <= c < 64 * (old(table)@.len() - 1) implies (#[trigger] bit_at(
                table@,
                c,
            ) <==> c != k && bit_at(old(table)@, c)) by {
                if c / 64 == i as int {
                    lemma_bit_clear(w, b, (c % 64) as u64);
                }
            }
        }
    }

    /// Creates the sieve for the numbers up to `n`.
    pub fn new(n: usize) -> (res: Self)
        requires
            n > 0,
        ensures
            res.wf(),
            res.limit() == n,
    {
        let blocks = n / 128 + 1;
        let bits = 64 * blocks;
        let mut table: Vec<u64> = vec![0xffff_ffff_ffff_ffffu64; blocks + 1];
        proof {
            assert forall|k: int| 0 <= k < bits implies #[trigger] bit_at(table@, k) by {
                lemma_bit_mask(0, 0, (k % 64) as u64);
            }
        }
        Self::clear(&mut table, 0);
        proof {
            assert forall|k: int| 0 <= k < bits implies (#[trigger] bit_at(table@, k) <==> k >= 1
                && !crossed(2 * k + 1, 3)) by {
                if crossed(2 * k + 1, 3) {
                    let d = choose|d: int| #[trigger] small_factor(2 * k + 1, 3, d);
                }
            }
        }
        let mut i: usize = 1;
        loop
            invariant_except_break
                n > 0,
                blocks == n / 128 + 1,
                bits == 64 * blocks,
                table@.len() == blocks + 1,
                1 <= i,
                i == 1 || 2 * i + 1 <= n,
                forall|k: int|
                    0 <= k < bits ==> (#[trigger] bit_at(table@, k) <==> k >= 1 && !crossed(
                        2 * k + 1,
                        2 * i + 1,
                    )),
            ensures
                table@.len() == blocks + 1,
                !bit_at(table@, 0),
                forall|k: int|
                    1 <= k < bits && 2 * k + 1 <= n ==> (#[trigger] bit_at(table@, k) <==> prime(
                        2 * k + 1,
                    )),
            decreases n + 2 - 2 * i,
        {
            let j = 2 * i + 1;
            if j > n / j {
                proof {
                    assert(!bit_at(table@, 0));
                    let nn = n as int;
                    let jj = j as int;
                    lemma_fundamental_div_mod(nn, jj);
                    assert(jj * jj > nn) by (nonlinear_arith)
                        requires
                            jj > nn / jj,
                            jj >= 3,
                            nn == jj * (nn / jj) + (nn % jj),
                            0 <= (nn % jj) < jj,
                    ;
                    assert forall|k: int| 1 <= k < bits && 2 * k + 1 <= n implies (
                    #[trigger] bit_at(table@, k) <==> prime(2 * k + 1)) by {
                        lemma_prime_iff_not_crossed(2 * k + 1, j as int);
                    }
                }
                break ;
            }
            proof {
                let nn = n as int;
                let jj = j as int;
                lemma_fundamental_div_mod(nn, jj);
                assert(jj * jj <= nn) by (nonlinear_arith)
                    requires
                        jj <= nn / jj,
                        jj >= 3,
                        nn == jj * (nn / jj) + (nn % jj),
                        0 <= (nn % jj) < jj,
                ;
                assert(jj + 2 <= jj * jj) by (nonlinear_arith)
                    requires
                        jj >= 3,
                ;
                vstd::arithmetic::div_mod::lemma_mul_mod_noop_general(jj, jj, 2);
                assert((jj * jj) % 2 == 1);
            }
            let word = table[i / 64];
            if (word >> ((i % 64) as u64)) & 1 == 1 {
                let start = (j * j) / 2;
                let mut k: usize = start;
                proof {
                    assert(bit_at(table@, i as int));
                    lemma_mod_multiples_basic(j as int, j as int);
                }
                while k < bits
                    invariant
                        n > 0,
                        j == 2 * i + 1,
                        j >= 3,
                        j * j <= n,
                        blocks == n / 128 + 1,
                        bits == 64 * blocks,
                        table@.len() == blocks + 1,
                        start == (j * j) / 2,
                        start <= k,
                        k >= bits || (2 * k + 1) % (j as int) == 0,
                        forall|c: int|
                            0 <= c < bits ==> (#[trigger] bit_at(table@, c) <==> c >= 1 && !crossed(
                                2 * c + 1,
                                j as int,
                            ) && !(c < k && (2 * c + 1) % (j as int) == 0 && (j as int) * (
                            j as int) <= 2 * c + 1)),
                    decreases bits - k,
                {
                    let ghost before = table@;
                    Self::clear(&mut table, k);
                    proof {
                        assert forall|c: int| 0 <= c < bits implies (#[trigger] bit_at(table@, c)
                            <==> c >= 1 && !crossed(2 * c + 1, j as int) && !(c < k + j && (2 * c
                            + 1) % (j as int) == 0 && (j as int) * (j as int) <= 2 * c + 1)) by {
                            assert(bit_at(table@, c) <==> c != k && bit_at(before, c));
                            if k < c < k + j {
                                lemma_between_multiples(j as int, k as int, c);
                            }
                        }
                        lemma_divides_multiple(j as int, 2);
                        lemma_divides_combination(j as int, 2 * k + 1, j * 2);
                    }
                    if j > bits - k {
                        k = bits;
                    } else {
                        k = k + j;
                    }
                }
                proof {
                    assert forall|c: int| 0 <= c < bits implies (#[trigger] bit_at(table@, c) <==> c
                        >= 1 && !crossed(2 * c + 1, j as int + 2)) by {
                        lemma_crossed_step(2 * c + 1, j as int);
                    }
                }
            } else {
                proof {
                    assert(!bit_at(table@, i as int));
                    assert(crossed(j as int, j as int));
                    assert forall|c: int| 0 <= c < bits implies (#[trigger] bit_at(table@, c) <==> c
                        >= 1 && !crossed(2 * c + 1, j as int + 2)) by {
                        lemma_crossed_step(2 * c + 1, j as int);
                        if (2 * c + 1) % (j as int) == 0 && (j as int) * (j as int) <= 2 * c + 1 {
                            lemma_crossed_multiple(2 * c + 1, j as int);
                        }
                    }
                }
            }
            i = i + 1;
        }
        // Nothing beyond `n` is kept.
        let top = (n - 1) / 2;
        let at = top / 64;
        let shift = (63 - top % 64) as u64;
        let ghost sieved = table@;
        let w = table[at];
        table[at] = w & (0xffff_ffff_ffff_ffffu64 >> shift);
        table[at + 1] = 0;
        table[blocks] = n as u64;
        proof {
            lemma_even_primes(0);
            assert forall|k: int| 0 <= k < bits implies (#[trigger] bit_at(table@, k) <==> 2 * k + 1
                <= n && prime(2 * k + 1)) by {
                let c = (k % 64) as u64;
                let word = k / 64;
                assert(word <= at + 1);
                assert(word < blocks);
                if k >= 1 && 2 * k + 1 <= n {
                    assert(bit_at(sieved, k) <==> prime(2 * k + 1));
                }
                if word == at as int {
                    lemma_bit_mask(w, shift, c);
                    assert(table@[word] == w & (0xffff_ffff_ffff_ffffu64 >> shift));
                    assert(bit_at(sieved, k) == bit(w, c));
                    assert(c + shift < 64 <==> 2 * k + 1 <= n);
                } else if word == at + 1 {
                    lemma_bit_mask(0, 0, c);
                    assert(table@[word] == 0);
                    assert(2 * k + 1 > n);
                } else {
                    assert(table@[word] == sieved[word]);
                    assert(bit_at(table@, k) == bit_at(sieved, k));
                    assert(2 * k + 1 <= n);
                }
            }
        }
        SieveEratosthenes(table)
    }

    /// Returns whether `n` is prime.
    pub fn is_prime(&self, n: usize) -> (res: bool)
        requires
            self.wf(),
            n <= self.limit(),
        ensures
            res == prime(n as int),
    {
        proof {
            lemma_even_primes(n as int);
            assert(self.0.len() == self.0@.len());
            if n % 2 == 1 {
                assert(bit_at(self.0@, n as int / 2) <==> prime(n as int));
            }
            if n == 0 {
                assert(!prime(0));
            }
        }
        n == 2 || (n % 2 == 1 && (self.0[n / 128] >> (((n / 2) % 64) as u64)) & 1 == 1)
    }

    /// Returns the number of primes up to the limit.
    pub fn count_primes(&self) -> (res: usize)
        requires
            self.wf(),
        ensures
            res == prime_count(self.limit() as int),
    {
        let n = self.len();
        if n < 2 {
            proof {
                reveal_with_fuel(prime_count, 2);
            }
            return 0;
        }
        let blocks = self.0.len() - 1;
        let mut count: usize = 1;
        let mut i: usize = 0;
        proof {
            reveal_with_fuel(odd_prime_count, 1);
        }
        while i < blocks
            invariant
                self.wf(),
                n == self.limit(),
                n >= 2,
                blocks == n / 128 + 1,
                blocks + 1 == self.0@.len(),
                i <= blocks,
                count == 1 + odd_prime_count(n as int, 64 * i),
            decreases blocks - i,
        {
            let w = self.0[i];
            let mut c: u64 = 0;
            while c < 64
                invariant
                    self.wf(),
                    n == self.limit(),
                    n >= 2,
                    blocks == n / 128 + 1,
                    blocks + 1 == self.0@.len(),
                    i < blocks,
                    w == self.0@[i as int],
                    c <= 64,
                    count == 1 + odd_prime_count(n as int, 64 * i + c),
                decreases 64 - c,
            {
                proof {
                    let k = 64 * i + c;
                    assert(bit_at(self.0@, k) <==> 2 * k + 1 <= n && prime(2 * k + 1));
                    assert(bit_at(self.0@, k) == bit(w, c));
                    if k >= 1 {
                        lemma_count_by_index(n as int, k + 1);
                    } else {
                        reveal_with_fuel(odd_prime_count, 2);
                    }
                }
                if (w >> c) & 1 == 1 {
                    count = count + 1;
                }
                c = c + 1;
            }
            i = i + 1;
        }
        proof {
            lemma_count_by_index(n as int, 64 * blocks);
        }
        count
    }

    /// Returns the primes up to the limit, in ascending order.
    pub fn primes(&self) -> (res: Vec<usize>)
        requires
            self.wf(),
        ensures
            res@ == primes_upto(self.limit() as int),
    {
        let n = self.len();
        let mut primes: Vec<usize> = Vec::new();
        if n < 2 {
            proof {
                reveal_with_fuel(primes_upto, 2);
            }
            return primes;
        }
        primes.push(2);
        let blocks = self.0.len() - 1;
        let mut i: usize = 0;
        proof {
            reveal_with_fuel(primes_before, 1);
        }
        while i < blocks
            invariant
                self.wf(),
                n == self.limit(),
                n >= 2,
                blocks == n / 128 + 1,
                blocks + 1 == self.0@.len(),
                i <= blocks,
                primes@ == primes_before(n as int, 64 * i),
            decreases blocks - i,
        {
            let w = self.0[i];
            let mut c: u64 = 0;
            while c < 64
                invariant
                    self.wf(),
                    n == self.limit(),
                    n >= 2,
                    blocks == n / 128 + 1,
                    blocks + 1 == self.0@.len(),
                    i < blocks,
                    w == self.0@[i as int],
                    c <= 64,
                    primes@ == primes_before(n as int, 64 * i + c),
                decreases 64 - c,
            {
                proof {
                    let k = 64 * i + c;
                    assert(bit_at(self.0@, k) <==> 2 * k + 1 <= n && prime(2 * k + 1));
                    assert(bit_at(self.0@, k) == bit(w, c));
                    reveal_with_fuel(primes_before, 2);
                }
                if (w >> c) & 1 == 1 {
                    primes.push(2 * (64 * i + c as usize) + 1);
                }
                c = c + 1;
            }
            i = i + 1;
        }
        proof {
            lemma_count_by_index(n as int, 64 * blocks);
        }
        primes
    }

    /// Returns the largest number that the sieve knows about.
    pub fn len(&self) -> (res: usize)
        requires
            self.wf(),
        ensures
            res == self.limit(),
    {
        proof {
            assert(self.0.len() == self.0@.len());
        }
        self.0[self.0.len() - 1] as usize
    }
}

} // verus!
