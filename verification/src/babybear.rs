//! Arithmetic in the BabyBear prime field, on canonical `u32` representatives.

use vstd::prelude::*;

use crate::known_primes::lemma_prime_2013265921;
use crate::number_theory::lemma_euclid;

verus! {

/// The BabyBear prime, `2^31 - 2^27 + 1`.
pub const BABYBEAR_P: u32 = 2_013_265_921;

/// `a + b` in the field.
pub open spec fn f_add(a: u32, b: u32) -> u32 {
    ((a + b) % (BABYBEAR_P as int)) as u32
}

/// `a - b` in the field.
pub open spec fn f_sub(a: u32, b: u32) -> u32 {
    ((a - b) % (BABYBEAR_P as int)) as u32
}

/// `a * b` in the field.
pub open spec fn f_mul(a: u32, b: u32) -> u32 {
    ((a * b) % (BABYBEAR_P as int)) as u32
}

/// `a` satisfies the field equation `a * (a - 1) = 0`.
pub open spec fn f_is_boolean(a: u32) -> bool {
    f_mul(a, f_sub(a, 1)) == 0
}

/// The equation is an exact check: the modulus is a prime, so of the canonical representatives only 0
/// and 1 satisfy it.
pub proof fn law_boolean_check_is_exact(a: u32)
    requires
        a < BABYBEAR_P,
    ensures
        f_is_boolean(a) <==> a == 0 || a == 1,
{
    let p = BABYBEAR_P as int;
    let b = f_sub(a, 1);
    if f_is_boolean(a) {
        lemma_prime_2013265921();
        lemma_euclid(p, a as int, b as int);
        if a > 0 {
            assert(a as int % p == a);
            assert(b as int % p == a - 1);
        }
    }
    if a == 0 || a == 1 {
        assert(a == 1 ==> b == 0);
        assert(a * b == 0) by (nonlinear_arith)
            requires
                a == 0 || b == 0,
        ;
    }
}

/// Every value of the row is the canonical representative of a field element.
pub open spec fn canonical(row: Seq<u32>) -> bool {
    forall|i: int| 0 <= i < row.len() ==> #[trigger] row[i] < BABYBEAR_P
}

pub fn bb_add(a: u32, b: u32) -> (r: u32)
    ensures
        r == f_add(a, b),
        r < BABYBEAR_P,
{
    let s: u64 = a as u64 + b as u64;
    (s % (BABYBEAR_P as u64)) as u32
}

/// Subtraction. `b` may exceed `a` by no more than the modulus, which canonical operands never do.
pub fn bb_sub(a: u32, b: u32) -> (r: u32)
    requires
        b <= a + BABYBEAR_P,
    ensures
        r == f_sub(a, b),
        r < BABYBEAR_P,
{
    let p: u64 = BABYBEAR_P as u64;
    let wide: u64 = a as u64 + p - b as u64;
    proof {
        vstd::arithmetic::div_mod::lemma_mod_add_multiples_vanish(a - b, p as int);
        assert((wide as int) == p as int + (a - b));
    }
    (wide % p) as u32
}

pub fn bb_mul(a: u32, b: u32) -> (r: u32)
    ensures
        r == f_mul(a, b),
        r < BABYBEAR_P,
{
    let p: u64 = BABYBEAR_P as u64;
    assert(a * b <= 0xffff_ffff * 0xffff_ffff) by (nonlinear_arith)
        requires
            a <= 0xffff_ffff,
            b <= 0xffff_ffff,
    ;
    ((a as u64 * b as u64) % p) as u32
}

pub fn bb_one() -> (r: u32)
    ensures
        r == 1,
{
    1
}

/// Tells whether a value satisfies `a * (a - 1) = 0`.
pub fn bb_is_boolean(a: u32) -> (r: bool)
    ensures
        r == f_is_boolean(a),
        a < BABYBEAR_P ==> r == (a == 0 || a == 1),
{
    proof {
        if a < BABYBEAR_P {
            law_boolean_check_is_exact(a);
        }
    }
    bb_mul(a, bb_sub(a, bb_one())) == 0
}

/// Tells whether every value of a row is canonical.
pub fn is_canonical_row(row: &[u32]) -> (r: bool)
    ensures
        r == canonical(row@),
{
    let mut i: usize = 0;
    while i < row.len()
        invariant
            i <= row@.len(),
            forall|k: int| 0 <= k < i ==> #[trigger] row@[k] < BABYBEAR_P,
        decreases row@.len() - i,
    {
        if row[i] >= BABYBEAR_P {
            assert(!canonical(row@)) by {
                assert(row@[i as int] >= BABYBEAR_P);
            }
            return false;
        }
        i += 1;
    }
    true
}

} // verus!
