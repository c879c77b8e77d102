//! Modular arithmetic on 64-bit integers.

use vstd::arithmetic::div_mod::{
    lemma_mod_bound, lemma_mul_mod_noop_left, lemma_mul_mod_noop_right, lemma_small_mod,
};
use vstd::arithmetic::power::{
    lemma_pow0, lemma_pow1, lemma_pow_adds, lemma_pow_mod_noop, lemma_pow_multiplies, pow,
};
use vstd::prelude::*;

verus! {

/// `(a + b) mod p`.
pub fn mod_add(p: u64, a: u64, b: u64) -> (r: u64)
    requires
        p > 0,
    ensures
        r == (a + b) % (p as int),
{
    ((a as u128 + b as u128) % (p as u128)) as u64
}

/// `(a * b) mod p`.
pub fn mod_mul(p: u64, a: u64, b: u64) -> (r: u64)
    requires
        p > 0,
    ensures
        r == (a * b) % (p as int),
{
    assert(a * b <= 0xffff_ffff_ffff_ffff * 0xffff_ffff_ffff_ffff) by (nonlinear_arith)
        requires
            a <= 0xffff_ffff_ffff_ffff,
            b <= 0xffff_ffff_ffff_ffff,
    ;
    ((a as u128 * b as u128) % (p as u128)) as u64
}

/// `(a * b) mod m`.
pub fn mod_mul_u64(a: u64, b: u64, m: u64) -> (r: u64)
    requires
        m > 0,
    ensures
        r == (a * b) % (m as int),
{
    mod_mul(m, a, b)
}

/// `a^e mod m`; the empty product is 1, whatever the modulus.
pub fn mod_pow_u64(a: u64, e: u64, m: u64) -> (r: u64)
    requires
        m > 0,
    ensures
        e == 0 ==> r == 1,
        e > 0 ==> r == pow(a as int, e as nat) % (m as int),
{
    let mut base: u64 = a;
    let mut e_left: u64 = e;
    let mut r: u64 = 1;
    let ghost mi = m as int;
    let ghost goal = pow(a as int, e as nat) % mi;
    proof {
        lemma_pow0(a as int);
        assert(1 * pow(a as int, e as nat) == pow(a as int, e as nat));
    }
    while e_left > 0
        invariant
            m > 0,
            mi == m as int,
            goal == pow(a as int, e as nat) % mi,
            (r * pow(base as int, e_left as nat)) % mi == goal,
            e == 0 ==> r == 1 && e_left == 0,
            e_left == 0 && e > 0 ==> r < m,
        decreases e_left,
    {
        let ghost old_r = r as int;
        let ghost old_base = base as int;
        let ghost n = e_left as nat;
        proof {
            assert(e_left & 1 == e_left % 2) by (bit_vector);
            assert(e_left >> 1 == e_left / 2) by (bit_vector);
            lemma_square_step(old_r, old_base, n, mi);
            lemma_mod_bound(old_r * old_base, mi);
        }
        if e_left & 1 == 1 {
            r = mod_mul_u64(r, base, m);
        }
        base = mod_mul_u64(base, base, m);
        e_left >>= 1;
    }
    proof {
        lemma_pow0(base as int);
        assert(r * 1 == r as int);
        if e > 0 {
            lemma_small_mod(r as nat, m as nat);
        }
    }
    r
}

/// One step of square-and-multiply keeps `r * base^n` unchanged modulo `m`.
proof fn lemma_square_step(r: int, base: int, n: nat, m: int)
    requires
        m > 0,
        n > 0,
    ensures
        ({
            let r2 = if n % 2 == 1 { (r * base) % m } else { r };
            let base2 = (base * base) % m;
            (r2 * pow(base2, n / 2)) % m == (r * pow(base, n)) % m
        }),
{
    let h = n / 2;
    let b2 = (base * base) % m;
    lemma_pow_mod_noop(base * base, h, m);
    lemma_pow1(base);
    lemma_pow_adds(base, 1, 1);
    assert(pow(base, 2) == base * base);
    lemma_pow_multiplies(base, 2, h);
    assert(pow(base * base, h) == pow(base, 2 * h));
    if n % 2 == 1 {
        assert(n == 2 * h + 1);
        lemma_pow_adds(base, 2 * h, 1);
        assert(pow(base, n) == pow(base, 2 * h) * base);
        let q = pow(base, 2 * h);
        assert(((r * base) * q) == r * (q * base)) by (nonlinear_arith);
        lemma_mul_mod_noop_left(r * base, pow(b2, h), m);
        lemma_mul_mod_noop_right(r * base, pow(b2, h), m);
        lemma_mul_mod_noop_right(r * base, q, m);
    } else {
        assert(n == 2 * h);
        lemma_mul_mod_noop_right(r, pow(b2, h), m);
        lemma_mul_mod_noop_right(r, pow(base, 2 * h), m);
    }
}

} // verus!
