//! Certificates of primality, after Pocklington and Proth: powers modulo a number that leave it no
//! room for a small prime divisor.

use vstd::arithmetic::div_mod::{
    lemma_fundamental_div_mod, lemma_mod_multiples_basic, lemma_mod_multiples_vanish,
    lemma_mul_mod_noop, lemma_small_mod,
};
use vstd::arithmetic::power::{
    lemma1_pow, lemma_pow1, lemma_pow_adds, lemma_pow_mod_noop, lemma_pow_multiplies, pow,
};
use vstd::arithmetic::power2::{lemma_pow2_pos, lemma_pow2_unfold, pow2};
use vstd::prelude::*;

use crate::number_theory::{is_prime, lemma_euclid, lemma_fermat};

verus! {

/// A divisor of a divisor is a divisor.
proof fn lemma_divisor_of_divisor(n: int, d: int, c: int)
    requires
        d > 0,
        c > 0,
        n % d == 0,
        d % c == 0,
    ensures
        n % c == 0,
{
    lemma_fundamental_div_mod(n, d);
    lemma_fundamental_div_mod(d, c);
    let k = (d / c) * (n / d);
    assert(n == k * c) by (nonlinear_arith)
        requires
            n == d * (n / d),
            d == c * (d / c),
            k == (d / c) * (n / d),
    ;
    lemma_mod_multiples_basic(k, c);
}

/// The least divisor from `d` on, where no smaller number divides.
proof fn lemma_least_divisor(n: int, d: int) -> (r: int)
    requires
        2 <= d <= n,
        forall|c: int| 1 < c < d ==> #[trigger] (n % c) != 0,
    ensures
        d <= r <= n,
        n % r == 0,
        is_prime(r),
        forall|c: int| 1 < c < r ==> #[trigger] (n % c) != 0,
    decreases n - d,
{
    if n % d == 0 {
        assert forall|c: int| 1 < c < d implies #[trigger] (d % c) != 0 by {
            if d % c == 0 {
                lemma_divisor_of_divisor(n, d, c);
            }
        }
        d
    } else {
        if d == n {
            lemma_mod_multiples_basic(1, n);
        }
        lemma_least_divisor(n, d + 1)
    }
}

/// A number that is no prime has a prime divisor up to its square root.
pub proof fn lemma_small_prime_divisor(n: int) -> (r: int)
    requires
        n >= 2,
        !is_prime(n),
    ensures
        is_prime(r),
        n % r == 0,
        r * r <= n,
{
    let r = lemma_least_divisor(n, 2);
    let d = choose|d: int| 1 < d < n && #[trigger] (n % d) == 0;
    assert(r <= d) by {
        if d < r {
            assert(n % d != 0);
        }
    }
    lemma_fundamental_div_mod(n, r);
    let m = n / r;
    assert(m > 1) by (nonlinear_arith)
        requires
            n == r * m,
            r < n,
            r >= 2,
    ;
    lemma_mod_multiples_basic(r, m);
    if m < r {
        assert(n % m != 0);
    }
    assert(r * r <= n) by (nonlinear_arith)
        requires
            n == r * m,
            m >= r,
            r >= 2,
    ;
    r
}

/// A remainder of 1 is a remainder of 1 for every divisor.
proof fn lemma_one_below(v: int, n: int, r: int, c: int)
    requires
        r > 0,
        n > 0,
        n % r == 0,
        v % n == c,
    ensures
        v % r == c % r,
{
    lemma_fundamental_div_mod(v, n);
    lemma_fundamental_div_mod(n, r);
    let k = (n / r) * (v / n);
    assert(v == r * k + c) by (nonlinear_arith)
        requires
            v == n * (v / n) + c,
            n == r * (n / r),
            k == (n / r) * (v / n),
    ;
    lemma_mod_multiples_vanish(k, c, r);
}

/// Powers of what leaves a remainder of 1 leave a remainder of 1.
proof fn lemma_power_of_one(y: int, k: nat, r: int)
    requires
        r > 1,
        y % r == 1,
    ensures
        pow(y, k) % r == 1,
{
    lemma_pow_mod_noop(y, k, r);
    lemma1_pow(k);
    lemma_small_mod(1, r as nat);
}

/// If `a^(n-1)` is 1 modulo `n` and `a^((n-1)/q) - 1` is invertible, with the inverse `u`, the prime
/// `q` divides `r - 1` for every prime divisor `r` of `n`.
proof fn lemma_order(n: int, a: int, q: int, u: int, r: int)
    requires
        n > 1,
        is_prime(r),
        n % r == 0,
        is_prime(q),
        (n - 1) % q == 0,
        pow(a, (n - 1) as nat) % n == 1,
        ((pow(a, ((n - 1) / q) as nat) - 1) * u) % n == 1,
    ensures
        (r - 1) % q == 0,
{
    let m = ((n - 1) / q) as nat;
    let x = pow(a, m);
    lemma_fundamental_div_mod(n - 1, q);
    vstd::arithmetic::div_mod::lemma_div_pos_is_pos(n - 1, q);
    assert(m * (q as nat) == n - 1) by (nonlinear_arith)
        requires
            n - 1 == q * ((n - 1) / q),
            m == (n - 1) / q,
            q > 0,
    ;
    lemma_pow_multiplies(a, m, q as nat);
    lemma_small_mod(1, r as nat);
    lemma_one_below(pow(x, q as nat), n, r, 1);
    lemma_one_below((x - 1) * u, n, r, 1);
    assert(x % r != 1) by {
        if x % r == 1 {
            lemma_fundamental_div_mod(x, r);
            let k = u * (x / r);
            assert((x - 1) * u == k * r) by (nonlinear_arith)
                requires
                    x == r * (x / r) + 1,
                    k == u * (x / r),
            ;
            lemma_mod_multiples_basic(k, r);
        }
    }
    assert(x % r != 0) by {
        if x % r == 0 {
            lemma_pow_mod_noop(x, q as nat, r);
            vstd::arithmetic::power::lemma0_pow(q as nat);
            lemma_small_mod(0, r as nat);
        }
    }
    lemma_fermat(r, x);
    let s = (r - 1) as nat;
    if s as int % q != 0 {
        lemma_fermat(q, s as int);
        let w = pow(s as int, (q - 1) as nat);
        let t = pow(s as int, (q - 2) as nat);
        lemma_pow1(s as int);
        lemma_pow_adds(s as int, 1, (q - 2) as nat);
        vstd::arithmetic::power::lemma_pow_positive(s as int, (q - 2) as nat);
        vstd::arithmetic::power::lemma_pow_positive(s as int, (q - 1) as nat);
        assert(w == s * t);
        lemma_fundamental_div_mod(w, q);
        vstd::arithmetic::div_mod::lemma_div_pos_is_pos(w, q);
        let k = (w / q) as nat;
        assert((q as nat) * k + 1 == w as nat);
        // x^w, once as a power of x^s, and once as x times a power of x^q.
        lemma_pow_multiplies(x, s, t as nat);
        lemma_power_of_one(pow(x, s), t as nat, r);
        assert(s * (t as nat) == w as nat);
        lemma_pow_multiplies(x, q as nat, k);
        lemma_power_of_one(pow(x, q as nat), k, r);
        lemma_pow_adds(x, (q as nat) * k, 1);
        lemma_pow1(x);
        let z = pow(x, (q as nat) * k);
        lemma_mul_mod_noop(z, x, r);
        assert((z % r) * (x % r) == x % r) by (nonlinear_arith)
            requires
                z % r == 1,
        ;
        vstd::arithmetic::div_mod::lemma_mod_twice(x, r);
    }
}

/// A positive multiple is no smaller than what it is a multiple of.
proof fn lemma_multiple_reaches(x: int, q: int)
    requires
        x > 0,
        q > 0,
        x % q == 0,
    ensures
        x >= q,
{
    if x < q {
        lemma_small_mod(x as nat, q as nat);
    }
}

/// Pocklington's criterion for one prime divisor of `n - 1` above the square root of `n`.
pub proof fn lemma_pocklington(n: int, a: int, q: int, u: int)
    requires
        n > 1,
        is_prime(q),
        (n - 1) % q == 0,
        q * q > n,
        pow(a, (n - 1) as nat) % n == 1,
        ((pow(a, ((n - 1) / q) as nat) - 1) * u) % n == 1,
    ensures
        is_prime(n),
{
    if !is_prime(n) {
        let r = lemma_small_prime_divisor(n);
        lemma_order(n, a, q, u, r);
        lemma_multiple_reaches(r - 1, q);
        assert(r * r > q * q) by (nonlinear_arith)
            requires
                r > q > 0,
        ;
    }
}

/// Pocklington's criterion for two prime divisors of `n - 1` whose product is above the square root
/// of `n`.
pub proof fn lemma_pocklington_pair(n: int, a: int, q1: int, u1: int, q2: int, u2: int)
    requires
        n > 1,
        is_prime(q1),
        is_prime(q2),
        q2 < q1,
        (n - 1) % q1 == 0,
        (n - 1) % q2 == 0,
        (q1 * q2) * (q1 * q2) > n,
        pow(a, (n - 1) as nat) % n == 1,
        ((pow(a, ((n - 1) / q1) as nat) - 1) * u1) % n == 1,
        ((pow(a, ((n - 1) / q2) as nat) - 1) * u2) % n == 1,
    ensures
        is_prime(n),
{
    if !is_prime(n) {
        let r = lemma_small_prime_divisor(n);
        lemma_order(n, a, q1, u1, r);
        lemma_order(n, a, q2, u2, r);
        lemma_fundamental_div_mod(r - 1, q1);
        let m = (r - 1) / q1;
        lemma_euclid(q2, q1, m);
        assert(q1 % q2 != 0);
        assert(m > 0) by (nonlinear_arith)
            requires
                r - 1 == q1 * m,
                r > 1,
                q1 > 0,
        ;
        lemma_multiple_reaches(m, q2);
        assert(r * r > (q1 * q2) * (q1 * q2)) by (nonlinear_arith)
            requires
                r == q1 * m + 1,
                m >= q2,
                q1 > 0,
                q2 > 0,
        ;
    }
}

/// Odd powers of a square root of 1 are that root again.
proof fn lemma_odd_power(y: int, t: nat, r: int)
    requires
        r > 1,
        (y * y) % r == 1,
        t % 2 == 1,
    ensures
        pow(y, t) % r == y % r,
{
    let m = t / 2;
    lemma_pow_multiplies(y, 2, m);
    lemma_pow_adds(y, 2 * m, 1);
    lemma_pow_adds(y, 1, 1);
    lemma_pow1(y);
    lemma_power_of_one(y * y, m, r);
    let z = pow(y, 2 * m);
    lemma_mul_mod_noop(z, y, r);
    assert((z % r) * (y % r) == y % r) by (nonlinear_arith)
        requires
            z % r == 1,
    ;
    vstd::arithmetic::div_mod::lemma_mod_twice(y, r);
}

/// If `x^(2^(e-1))` is -1 modulo an odd prime `r`, the power `2^j`, for `j` up to `e`, divides
/// `r - 1`.
proof fn lemma_two_power_divides(r: int, x: int, e: nat, j: nat)
    requires
        is_prime(r),
        r > 2,
        1 <= e,
        j <= e,
        pow(x, pow2((e - 1) as nat)) % r == r - 1,
    ensures
        (r - 1) % (pow2(j) as int) == 0,
    decreases j,
{
    lemma_pow2_pos(j);
    if j == 0 {
        vstd::arithmetic::power2::lemma2_to64();
    } else {
        let i = (j - 1) as nat;
        lemma_two_power_divides(r, x, e, i);
        lemma_pow2_pos(i);
        lemma_pow2_unfold(j);
        lemma_fundamental_div_mod(r - 1, pow2(i) as int);
        let t = ((r - 1) / (pow2(i) as int)) as nat;
        vstd::arithmetic::div_mod::lemma_div_pos_is_pos(r - 1, pow2(i) as int);
        let y = pow(x, pow2((e - 1) as nat));
        if t % 2 == 1 {
            lemma_mul_mod_noop(y, y, r);
            assert((r - 1) * (r - 1) == (r - 2) * r + 1) by (nonlinear_arith);
            lemma_mod_multiples_vanish(r - 2, 1, r);
            assert(r * (r - 2) + 1 == (r - 2) * r + 1) by (nonlinear_arith);
            lemma_small_mod(1, r as nat);
            lemma_odd_power(y, t, r);
            // y^t is a power of x^(r-1), which is 1.
            assert(x % r != 0) by {
                if x % r == 0 {
                    let h = pow2((e - 1) as nat);
                    lemma_pow2_pos((e - 1) as nat);
                    lemma_pow_mod_noop(x, h, r);
                    vstd::arithmetic::power::lemma0_pow(h);
                    lemma_small_mod(0, r as nat);
                }
            }
            lemma_fermat(r, x);
            let g = (e - 1 - i) as nat;
            vstd::arithmetic::power2::lemma_pow2_adds(i, g);
            lemma_pow_multiplies(x, pow2((e - 1) as nat), t);
            lemma_pow_multiplies(x, (r - 1) as nat, pow2(g));
            lemma_power_of_one(pow(x, (r - 1) as nat), pow2(g), r);
            assert(pow2((e - 1) as nat) * t == ((r - 1) as nat) * pow2(g)) by (nonlinear_arith)
                requires
                    pow2((e - 1) as nat) == pow2(i) * pow2(g),
                    r - 1 == pow2(i) * t,
            ;
        } else {
            let m = t / 2;
            assert(r - 1 == m * pow2(j)) by (nonlinear_arith)
                requires
                    r - 1 == pow2(i) * t,
                    t == 2 * m,
                    pow2(j) == 2 * pow2(i),
            ;
            lemma_mod_multiples_basic(m as int, pow2(j) as int);
        }
    }
}

/// Proth's criterion: `n - 1` is `k` times a power of two above the square root of `n`, and a power of
/// `a` with half of `n - 1` as exponent is -1 modulo `n`.
pub proof fn lemma_proth(n: int, k: nat, e: nat, a: int)
    requires
        n > 2,
        1 <= e,
        n == k * pow2(e) + 1,
        pow2(e) * pow2(e) > n,
        pow(a, k * pow2((e - 1) as nat)) % n == n - 1,
    ensures
        is_prime(n),
{
    lemma_pow2_pos((e - 1) as nat);
    lemma_pow2_unfold(e);
    if !is_prime(n) {
        let r = lemma_small_prime_divisor(n);
        let h = pow2((e - 1) as nat);
        assert(n % 2 == 1) by {
            let g = k * h;
            assert(n == 2 * g + 1) by (nonlinear_arith)
                requires
                    n == k * pow2(e) + 1,
                    pow2(e) == 2 * h,
                    g == k * h,
            ;
        }
        assert(r != 2);
        lemma_pow_multiplies(a, k, h);
        lemma_one_below(pow(pow(a, k), h), n, r, n - 1);
        lemma_fundamental_div_mod(n, r);
        let c = n / r - 1;
        assert(n - 1 == r * c + (r - 1)) by (nonlinear_arith)
            requires
                n == r * (n / r),
                c == n / r - 1,
        ;
        lemma_mod_multiples_vanish(c, r - 1, r);
        lemma_small_mod((r - 1) as nat, r as nat);
        lemma_two_power_divides(r, pow(a, k), e, e);
        lemma_multiple_reaches(r - 1, pow2(e) as int);
        assert(r * r > pow2(e) * pow2(e)) by (nonlinear_arith)
            requires
                r > pow2(e) > 0,
        ;
    }
}

/// A number below the square of 41 that none of the first primes divides is a prime.
pub proof fn lemma_prime_by_trial(n: int)
    requires
        1 < n < 1681,
        n % 2 != 0 || n == 2,
        n % 3 != 0 || n == 3,
        n % 5 != 0 || n == 5,
        n % 7 != 0 || n == 7,
        n % 11 != 0 || n == 11,
        n % 13 != 0 || n == 13,
        n % 17 != 0 || n == 17,
        n % 19 != 0 || n == 19,
        n % 23 != 0 || n == 23,
        n % 29 != 0 || n == 29,
        n % 31 != 0 || n == 31,
        n % 37 != 0 || n == 37,
    ensures
        is_prime(n),
{
    if !is_prime(n) {
        let r = lemma_small_prime_divisor(n);
        assert(r < 41) by (nonlinear_arith)
            requires
                r * r <= n,
                n < 1681,
                r > 1,
        ;
        assert(r < n) by (nonlinear_arith)
            requires
                r * r <= n,
                r > 1,
        ;
        lemma_composite_divisors(r);
    }
}

/// Among the numbers below 41 the primes are known.
proof fn lemma_composite_divisors(r: int)
    requires
        is_prime(r),
        r < 41,
    ensures
        r == 2 || r == 3 || r == 5 || r == 7 || r == 11 || r == 13 || r == 17 || r == 19 || r == 23
            || r == 29 || r == 31 || r == 37,
{
    if r > 2 {
        assert(r % 2 != 0);
    }
    if r > 3 {
        assert(r % 3 != 0);
    }
    if r > 5 {
        assert(r % 5 != 0);
    }
}

/// From a power modulo `n` to its square.
proof fn lemma_square_step(n: int, x: int, c: int, s: int)
    requires
        n > 1,
        x % n == c,
        (c * c) % n == s,
    ensures
        pow(x, 2) % n == s,
{
    lemma_pow1(x);
    lemma_pow_adds(x, 1, 1);
    lemma_mul_mod_noop(x, x, n);
}

/// One more hexadecimal digit of an exponent: from `c`, the remainder of `a^e`, by four squarings and
/// the factor `a^d`, to `r`, the remainder of `a^(16 e + d)`.
pub proof fn lemma_digit(
    n: int,
    a: int,
    e: nat,
    c: int,
    squares: (int, int, int, int),
    d: nat,
    power: int,
    r: int,
)
    requires
        n > 1,
        pow(a, e) % n == c,
        (c * c) % n == squares.0,
        (squares.0 * squares.0) % n == squares.1,
        (squares.1 * squares.1) % n == squares.2,
        (squares.2 * squares.2) % n == squares.3,
        pow(a, d) == power,
        (squares.3 * power) % n == r,
    ensures
        pow(a, 16 * e + d) % n == r,
{
    let (s1, s2, s3, s4) = squares;
    lemma_square_step(n, pow(a, e), c, s1);
    lemma_pow_multiplies(a, e, 2);
    lemma_square_step(n, pow(a, e * 2), s1, s2);
    lemma_pow_multiplies(a, e * 2, 2);
    lemma_square_step(n, pow(a, e * 4), s2, s3);
    lemma_pow_multiplies(a, e * 4, 2);
    lemma_square_step(n, pow(a, e * 8), s3, s4);
    lemma_pow_multiplies(a, e * 8, 2);
    assert(e * 2 * 2 == e * 4 && e * 4 * 2 == e * 8 && e * 8 * 2 == 16 * e);
    lemma_pow_adds(a, 16 * e, d);
    let y = pow(a, 16 * e);
    lemma_mul_mod_noop(y, power, n);
    lemma_mul_mod_noop(s4, power, n);
    vstd::arithmetic::div_mod::lemma_mod_twice(y, n);
}

/// An inverse of `c - 1` inverts `x - 1` for every `x` with the remainder `c`.
pub proof fn lemma_inverse(n: int, x: int, c: int, u: int)
    requires
        n > 1,
        x % n == c,
        ((c - 1) * u) % n == 1,
    ensures
        ((x - 1) * u) % n == 1,
{
    lemma_fundamental_div_mod(x, n);
    let k = u * (x / n);
    assert((x - 1) * u == n * k + (c - 1) * u) by (nonlinear_arith)
        requires
            x == n * (x / n) + c,
            k == u * (x / n),
    ;
    lemma_mod_multiples_vanish(k, (c - 1) * u, n);
}

} // verus!
