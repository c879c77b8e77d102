//! A primality test for 64-bit integers: trial division by the first primes, and then the
//! Miller-Rabin test with seven fixed bases.

use vstd::arithmetic::div_mod::{lemma_mod_bound, lemma_mul_mod_noop, lemma_small_mod};
use vstd::arithmetic::power::{lemma_pow_adds, lemma_pow_mod_noop, pow};
use vstd::arithmetic::power2::{lemma2_to64, lemma_pow2_unfold, pow2};
use vstd::prelude::*;

use crate::certificates::lemma_prime_by_trial;
use crate::modular::{mod_mul_u64, mod_pow_u64};
use crate::number_theory::{is_prime, lemma_fermat, lemma_root_of_one};

verus! {

/// The primes that are tried as divisors.
pub const SMALL_PRIMES: [u64; 12] = [2, 3, 5, 7, 11, 13, 17, 19, 23, 29, 31, 37];

/// The bases of the Miller-Rabin test.
pub const BASES: [u64; 7] = [2, 325, 9375, 28178, 450775, 9780504, 1795265022];

/// How often 2 divides a number.
pub open spec fn twos(m: nat) -> nat
    decreases m,
{
    if m > 0 && m % 2 == 0 {
        1 + twos(m / 2)
    } else {
        0
    }
}

/// What is left of a number when 2 is divided out.
pub open spec fn odd_part(m: nat) -> nat
    decreases m,
{
    if m > 0 && m % 2 == 0 {
        odd_part(m / 2)
    } else {
        m
    }
}

/// `a^(d * 2^r)` modulo `n`, where `d` is the odd part of `n - 1`.
pub open spec fn witness_power(n: int, a: int, r: nat) -> int {
    pow(a, odd_part((n - 1) as nat) * pow2(r)) % n
}

/// `n` behaves like a prime for the base `a`: with `n - 1 = d * 2^s` and `d` odd, `a^d` is 1, or one
/// of its first `s` repeated squares is -1, or `n` divides `a`.
pub open spec fn strong_probable_prime(n: int, a: int) -> bool {
    ||| a % n == 0
    ||| witness_power(n, a, 0) == 1
    ||| exists|r: nat| r < twos((n - 1) as nat) && #[trigger] witness_power(n, a, r) == n - 1
}

/// `n` is one of the small primes.
pub open spec fn is_small_prime(n: u64) -> bool {
    exists|i: int| 0 <= i < 12 && n == #[trigger] SMALL_PRIMES[i]
}

/// `n` passes the test.
pub open spec fn passes_primality_test(n: u64) -> bool {
    &&& n >= 2
    &&& {
        ||| is_small_prime(n)
        ||| {
            &&& forall|i: int| 0 <= i < 12 ==> n % (#[trigger] SMALL_PRIMES[i]) != 0
            &&& forall|i: int|
                0 <= i < 7 ==> strong_probable_prime(n as int, (#[trigger] BASES[i]) as int)
        }
    }
}

/// No small prime divides another.
proof fn lemma_small_primes_coprime(i: int, j: int)
    requires
        0 <= i < j < 12,
    ensures
        SMALL_PRIMES[j] % SMALL_PRIMES[i] != 0,
{
    let q = SMALL_PRIMES[j];
    assert(SMALL_PRIMES[0] == 2 && SMALL_PRIMES[1] == 3 && SMALL_PRIMES[2] == 5);
    assert(SMALL_PRIMES[3] == 7 && SMALL_PRIMES[4] == 11 && SMALL_PRIMES[5] == 13);
    assert(SMALL_PRIMES[6] == 17 && SMALL_PRIMES[7] == 19 && SMALL_PRIMES[8] == 23);
    assert(SMALL_PRIMES[9] == 29 && SMALL_PRIMES[10] == 31 && SMALL_PRIMES[11] == 37);
    if i == 0 {
        assert(q % 2 != 0);
    } else if i == 1 {
        assert(q % 3 != 0);
    } else if i == 2 {
        assert(q % 5 != 0);
    } else if i == 3 {
        assert(q % 7 != 0);
    } else if i == 4 {
        assert(q % 11 != 0);
    } else if i == 5 {
        assert(q % 13 != 0);
    } else if i == 6 {
        assert(q % 17 != 0);
    } else if i == 7 {
        assert(q % 19 != 0);
    } else if i == 8 {
        assert(q % 23 != 0);
    } else if i == 9 {
        assert(q % 29 != 0);
    } else if i == 10 {
        assert(q % 31 != 0);
    }
}

/// The small primes stand in ascending order.
proof fn lemma_small_prime_order(i: int, j: int)
    requires
        0 <= i < j < 12,
    ensures
        SMALL_PRIMES[i] < SMALL_PRIMES[j],
{
    assert(SMALL_PRIMES[0] == 2 && SMALL_PRIMES[1] == 3 && SMALL_PRIMES[2] == 5);
    assert(SMALL_PRIMES[3] == 7 && SMALL_PRIMES[4] == 11 && SMALL_PRIMES[5] == 13);
    assert(SMALL_PRIMES[6] == 17 && SMALL_PRIMES[7] == 19 && SMALL_PRIMES[8] == 23);
    assert(SMALL_PRIMES[9] == 29 && SMALL_PRIMES[10] == 31 && SMALL_PRIMES[11] == 37);
}

/// The repeated squares.
proof fn lemma_witness_square(n: int, a: int, r: nat)
    requires
        n > 1,
    ensures
        (witness_power(n, a, r) * witness_power(n, a, r)) % n == witness_power(n, a, r + 1),
{
    let e = odd_part((n - 1) as nat) * pow2(r);
    let x = pow(a, e);
    lemma_mul_mod_noop(x, x, n);
    lemma_pow_adds(a, e, e);
    lemma_pow2_unfold(r + 1);
    assert(odd_part((n - 1) as nat) * pow2(r + 1) == e + e) by (nonlinear_arith)
        requires
            e == odd_part((n - 1) as nat) * pow2(r),
            pow2(r + 1) == 2 * pow2(r),
    ;
}

/// A number is its odd part times a power of 2.
proof fn lemma_odd_part(m: nat)
    ensures
        m == odd_part(m) * pow2(twos(m)),
    decreases m,
{
    lemma2_to64();
    if m > 0 && m % 2 == 0 {
        lemma_odd_part(m / 2);
        lemma_pow2_unfold(twos(m));
        assert(m == odd_part(m) * pow2(twos(m))) by (nonlinear_arith)
            requires
                m / 2 == odd_part(m) * pow2((twos(m) - 1) as nat),
                pow2(twos(m)) == 2 * pow2((twos(m) - 1) as nat),
                m == 2 * (m / 2),
        ;
    } else {
        assert(m * 1 == m);
    }
}

/// A repeated square that is 1 comes from 1 or from -1.
proof fn lemma_descend(n: int, a: int, r: nat)
    requires
        is_prime(n),
        witness_power(n, a, r) == 1,
        witness_power(n, a, 0) != 1,
    ensures
        exists|k: nat| k < r && #[trigger] witness_power(n, a, k) == n - 1,
    decreases r,
{
    let k = (r - 1) as nat;
    let x = witness_power(n, a, k);
    lemma_witness_square(n, a, k);
    lemma_root_of_one(n, x);
    lemma_mod_bound(pow(a, odd_part((n - 1) as nat) * pow2(k)), n);
    lemma_small_mod(x as nat, n as nat);
    if x == 1 {
        lemma_descend(n, a, k);
    }
}

/// A prime behaves like a prime, whatever the base.
pub proof fn lemma_prime_is_probable(n: int, a: int)
    requires
        is_prime(n),
    ensures
        strong_probable_prime(n, a),
{
    if a % n != 0 && witness_power(n, a, 0) != 1 {
        lemma_fermat(n, a);
        lemma_odd_part((n - 1) as nat);
        lemma_descend(n, a, twos((n - 1) as nat));
    }
}

/// The test accepts every prime: what it rejects is no prime.
pub proof fn law_primes_pass(n: u64)
    requires
        is_prime(n as int),
    ensures
        passes_primality_test(n),
{
    assert forall|i: int| 0 <= i < 12 && n % (#[trigger] SMALL_PRIMES[i]) == 0 implies n
        == SMALL_PRIMES[i] by {
        let p = SMALL_PRIMES[i];
        if p < n {
            assert(n as int % p as int != 0);
        } else if n < p {
            lemma_small_mod(n as nat, p as nat);
        }
    }
    assert forall|i: int| 0 <= i < 7 implies strong_probable_prime(
        n as int,
        (#[trigger] BASES[i]) as int,
    ) by {
        lemma_prime_is_probable(n as int, BASES[i] as int);
    }
}

/// Below the square of 41 the test is exact: what passes it is a prime, for the small primes are tried
/// as divisors.
pub proof fn law_test_is_exact_on_small_numbers(n: u64)
    requires
        n < 1681,
    ensures
        passes_primality_test(n) <==> is_prime(n as int),
{
    if is_prime(n as int) {
        law_primes_pass(n);
    }
    if passes_primality_test(n) {
        assert forall|i: int| 0 <= i < 12 implies n % (#[trigger] SMALL_PRIMES[i]) != 0 || n
            == SMALL_PRIMES[i] by {
            if is_small_prime(n) {
                let j = choose|j: int| 0 <= j < 12 && n == #[trigger] SMALL_PRIMES[j];
                if i < j {
                    lemma_small_primes_coprime(i, j);
                } else if j < i {
                    lemma_small_prime_order(j, i);
                    lemma_small_mod(n as nat, SMALL_PRIMES[i] as nat);
                }
            }
        }
        assert(SMALL_PRIMES[0] == 2 && SMALL_PRIMES[1] == 3 && SMALL_PRIMES[2] == 5);
        assert(SMALL_PRIMES[3] == 7 && SMALL_PRIMES[4] == 11 && SMALL_PRIMES[5] == 13);
        assert(SMALL_PRIMES[6] == 17 && SMALL_PRIMES[7] == 19 && SMALL_PRIMES[8] == 23);
        assert(SMALL_PRIMES[9] == 29 && SMALL_PRIMES[10] == 31 && SMALL_PRIMES[11] == 37);
        lemma_prime_by_trial(n as int);
    }
}

/// Tells whether an odd number behaves like a prime for a base.
fn is_strong_probable_prime(n: u64, base: u64) -> (r: bool)
    requires
        n > 2,
        n % 2 == 1,
    ensures
        r == strong_probable_prime(n as int, base as int),
{
    let ghost ni = n as int;
    let mut d: u64 = n - 1;
    let mut s: u32 = 0;
    proof {
        lemma2_to64();
    }
    while d % 2 == 0
        invariant
            0 < d < n,
            odd_part((n - 1) as nat) == odd_part(d as nat),
            twos((n - 1) as nat) == s + twos(d as nat),
            d * pow2(s as nat) == n - 1,
            s < 64,
        decreases d,
    {
        proof {
            assert(d >> 1 == d / 2) by (bit_vector);
            lemma_pow2_unfold((s + 1) as nat);
            let half = d / 2;
            let p = pow2(s as nat);
            assert(half * (2 * p) == d * p) by (nonlinear_arith)
                requires
                    d == 2 * half,
            ;
            if s == 63 {
                lemma2_to64();
                vstd::arithmetic::power2::lemma2_to64_rest();
                assert(half >= 1);
                assert(half * (2 * p) >= 2 * p) by (nonlinear_arith)
                    requires
                        half >= 1,
                        p >= 0,
                ;
            }
        }
        d >>= 1;
        s += 1;
    }
    let a: u64 = base % n;
    proof {
        vstd::arithmetic::div_mod::lemma_mod_twice(base as int, ni);
    }
    if a == 0 {
        return true;
    }
    let mut x: u64 = mod_pow_u64(a, d, n);
    proof {
        lemma2_to64();
        lemma_pow_mod_noop(base as int, d as nat, ni);
        assert(d as nat * pow2(0) == d as nat);
        assert(x == witness_power(ni, base as int, 0));
        assert(s == twos((n - 1) as nat));
        assert(s >= 1);
    }
    if x == 1 || x == n - 1 {
        return true;
    }
    let mut r: u32 = 0;
    while r + 1 < s
        invariant
            r < s,
            s <= 64,
            n > 2,
            ni == n as int,
            s == twos((n - 1) as nat),
            base as int % ni != 0,
            witness_power(ni, base as int, 0) != 1,
            x == witness_power(ni, base as int, r as nat),
            forall|k: nat| k <= r ==> #[trigger] witness_power(ni, base as int, k) != n - 1,
        decreases s - r,
    {
        proof {
            lemma_witness_square(ni, base as int, r as nat);
        }
        x = mod_mul_u64(x, x, n);
        r += 1;
        if x == n - 1 {
            assert(witness_power(ni, base as int, r as nat) == n - 1);
            return true;
        }
    }
    false
}

/// Tells whether a number passes the primality test. Every prime passes it, and below the square of 41
/// nothing else does; of a larger number that passes it is left unsaid here that it is a prime.
pub fn is_prime_u64(n: u64) -> (r: bool)
    ensures
        r == passes_primality_test(n),
        is_prime(n as int) ==> r,
        n < 1681 ==> r == is_prime(n as int),
{
    proof {
        if is_prime(n as int) {
            law_primes_pass(n);
        }
        if n < 1681 {
            law_test_is_exact_on_small_numbers(n);
        }
    }
    if n < 2 {
        return false;
    }
    let mut i: usize = 0;
    while i < 12
        invariant
            i <= 12,
            n >= 2,
            forall|k: int|
                0 <= k < i ==> n != (#[trigger] SMALL_PRIMES[k]) && n % SMALL_PRIMES[k] != 0,
            is_prime(n as int) ==> passes_primality_test(n),
            n < 1681 ==> passes_primality_test(n) == is_prime(n as int),
        decreases 12 - i,
    {
        let p: u64 = SMALL_PRIMES[i];
        if n == p {
            return true;
        }
        if n % p == 0 {
            proof {
                assert forall|j: int| 0 <= j < 12 implies n != #[trigger] SMALL_PRIMES[j] by {
                    if j > i {
                        lemma_small_primes_coprime(i as int, j);
                    }
                }
            }
            return false;
        }
        i += 1;
    }
    proof {
        assert(n % SMALL_PRIMES[0] != 0);
    }
    let mut k: usize = 0;
    while k < 7
        invariant
            k <= 7,
            n > 2,
            n % 2 == 1,
            forall|j: int| 0 <= j < 12 ==> n != #[trigger] SMALL_PRIMES[j],
            forall|j: int|
                0 <= j < k ==> strong_probable_prime(n as int, (#[trigger] BASES[j]) as int),
            is_prime(n as int) ==> passes_primality_test(n),
            n < 1681 ==> passes_primality_test(n) == is_prime(n as int),
        decreases 7 - k,
    {
        let a: u64 = BASES[k];
        if !is_strong_probable_prime(n, a) {
            assert(!strong_probable_prime(n as int, BASES[k as int] as int));
            return false;
        }
        k += 1;
    }
    true
}

} // verus!
