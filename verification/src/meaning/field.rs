//! The field operations are those of a field, and the extension is the ring of polynomials modulo
//! `x^4 - 11`.

use vstd::arithmetic::div_mod::{
    lemma_add_mod_noop, lemma_mod_bound, lemma_mod_equivalence, lemma_mul_mod_noop_left,
    lemma_mul_mod_noop_right, lemma_small_mod,
};
use vstd::arithmetic::mul::{
    lemma_mul_is_associative, lemma_mul_is_commutative, lemma_mul_is_distributive_add,
};
use vstd::prelude::*;

use crate::babybear::{f_add, f_mul, f_sub, BABYBEAR_P};
use crate::extension::{e_add, e_base, e_mul, e_sub, BBExt};
use crate::known_primes::lemma_prime_2013265921;
use crate::number_theory::lemma_euclid;
use crate::ring::{lemma_mul_associates, lemma_mul_commutes, lemma_mul_distributes};

verus! {

/// The operations on canonical representatives make a field without zero divisors: sums and products
/// can be reordered and regrouped, products distribute over sums, subtraction undoes addition, and a
/// product is zero only where a factor is.
pub proof fn law_field_operations(a: u32, b: u32, c: u32)
    requires
        a < BABYBEAR_P,
        b < BABYBEAR_P,
        c < BABYBEAR_P,
    ensures
        f_add(a, b) < BABYBEAR_P,
        f_sub(a, b) < BABYBEAR_P,
        f_mul(a, b) < BABYBEAR_P,
        f_add(a, b) == f_add(b, a),
        f_add(f_add(a, b), c) == f_add(a, f_add(b, c)),
        f_add(a, 0) == a,
        f_add((BABYBEAR_P - 1) as u32, 1) == 0,
        f_add(f_sub(a, b), b) == a,
        f_sub(f_add(a, b), b) == a,
        f_mul(a, b) == f_mul(b, a),
        f_mul(f_mul(a, b), c) == f_mul(a, f_mul(b, c)),
        f_mul(a, f_add(b, c)) == f_add(f_mul(a, b), f_mul(a, c)),
        f_mul(a, 1) == a,
        f_mul(a, b) == 0 <==> a == 0 || b == 0,
{
    lemma_sums(a, b, c);
    lemma_products(a, b, c);
    lemma_zero_product(a, b);
    lemma_zero_product(b, a);
    lemma_wraps((BABYBEAR_P - 1) as u32, 1);
    lemma_wraps(a, b);
}

/// A sum or difference of canonical values wraps around at most once.
pub proof fn lemma_wraps(a: u32, b: u32)
    requires
        a < BABYBEAR_P,
        b < BABYBEAR_P,
    ensures
        f_add(a, b) == (if a + b < BABYBEAR_P {
            a + b
        } else {
            a + b - BABYBEAR_P
        }),
        f_sub(a, b) == (if a >= b {
            a - b
        } else {
            a - b + BABYBEAR_P
        }),
{
}

/// Sums can be reordered and regrouped, and subtraction undoes addition.
pub proof fn lemma_sums(a: u32, b: u32, c: u32)
    requires
        a < BABYBEAR_P,
        b < BABYBEAR_P,
        c < BABYBEAR_P,
    ensures
        f_add(a, b) < BABYBEAR_P,
        f_add(a, b) == f_add(b, a),
        f_add(f_add(a, b), c) == f_add(a, f_add(b, c)),
        f_add(a, 0) == a,
        f_add(f_sub(a, b), b) == a,
        f_sub(f_add(a, b), b) == a,
        c == f_sub(a, b) <==> f_add(c, b) == a,
{
    lemma_wraps(a, b);
    lemma_wraps(b, a);
    lemma_wraps(b, c);
    lemma_wraps(c, b);
    lemma_wraps(f_add(a, b), c);
    lemma_wraps(a, f_add(b, c));
    lemma_wraps(a, 0);
    lemma_wraps(f_sub(a, b), b);
    lemma_wraps(f_add(a, b), b);
}

proof fn lemma_products(a: u32, b: u32, c: u32)
    requires
        a < BABYBEAR_P,
        b < BABYBEAR_P,
        c < BABYBEAR_P,
    ensures
        f_mul(a, b) == f_mul(b, a),
        f_mul(f_mul(a, b), c) == f_mul(a, f_mul(b, c)),
        f_mul(a, f_add(b, c)) == f_add(f_mul(a, b), f_mul(a, c)),
        f_mul(a, 1) == a,
{
    let p = BABYBEAR_P as int;
    let (x, y, z) = (a as int, b as int, c as int);
    lemma_mod_bound(x * y, p);
    lemma_mod_bound(y * z, p);
    lemma_mod_bound(x * z, p);
    lemma_mul_is_commutative(x, y);
    assert(f_mul(f_mul(a, b), c) == f_mul(a, f_mul(b, c))) by {
        lemma_mul_is_associative(x, y, z);
        lemma_mul_mod_noop_left(x * y, z, p);
        lemma_mul_mod_noop_right(x, y * z, p);
    }
    assert(f_mul(a, f_add(b, c)) == f_add(f_mul(a, b), f_mul(a, c))) by {
        lemma_mul_is_distributive_add(x, y, z);
        lemma_mul_mod_noop_right(x, y + z, p);
        lemma_add_mod_noop(x * y, x * z, p);
        lemma_mod_bound(y + z, p);
    }
    assert(x * 1 == x);
    lemma_small_mod(a as nat, p as nat);
}

/// A product of canonical values is zero exactly where a factor is.
pub proof fn lemma_zero_product(a: u32, b: u32)
    requires
        a < BABYBEAR_P,
        b < BABYBEAR_P,
    ensures
        f_mul(a, b) == 0 <==> a == 0 || b == 0,
        f_mul(a, b) < BABYBEAR_P,
{
    let p = BABYBEAR_P as int;
    lemma_mod_bound(a * b, p);
    if f_mul(a, b) == 0 {
        lemma_prime_2013265921();
        lemma_euclid(p, a as int, b as int);
        lemma_small_mod(a as nat, p as nat);
        lemma_small_mod(b as nat, p as nat);
    }
    if a == 0 || b == 0 {
        assert(a * b == 0) by (nonlinear_arith)
            requires
                a == 0 || b == 0,
        ;
    }
}

/// A canonical value is a given number in the field exactly where their difference is a multiple of the
/// modulus.
pub proof fn lemma_congruent(a: u32, x: int)
    requires
        a < BABYBEAR_P,
    ensures
        (a == x % (BABYBEAR_P as int)) <==> (a - x) % (BABYBEAR_P as int) == 0,
{
    lemma_small_mod(a as nat, BABYBEAR_P as nat);
    lemma_mod_equivalence(a as int, x, BABYBEAR_P as int);
}

/// The difference of two canonical values is zero exactly where they are equal.
pub proof fn lemma_zero_difference(a: u32, b: u32)
    requires
        a < BABYBEAR_P,
        b < BABYBEAR_P,
    ensures
        f_sub(a, b) == 0 <==> a == b,
        f_sub(a, b) < BABYBEAR_P,
{
    lemma_mod_bound(a - b, BABYBEAR_P as int);
}

/// The difference of a canonical value and a reduced product is zero exactly where the value is
/// congruent to the product.
pub proof fn lemma_minus_product(a: u32, b: u32, c: u32)
    requires
        a < BABYBEAR_P,
    ensures
        f_sub(a, f_mul(b, c)) == 0 <==> (a - b * c) % (BABYBEAR_P as int) == 0,
        f_sub(a, f_mul(b, c)) < BABYBEAR_P,
{
    let p = BABYBEAR_P as int;
    lemma_mod_bound(b * c, p);
    lemma_zero_difference(a, f_mul(b, c));
    lemma_congruent(a, b * c);
}

/// A value that adds with `b` to `a` is the difference.
pub proof fn lemma_e_difference(a: BBExt, b: BBExt, d: BBExt)
    requires
        a.wf(),
        b.wf(),
        d.wf(),
    ensures
        d == e_sub(a, b) <==> e_add(d, b) == a,
        e_sub(a, b).wf(),
{
    lemma_sums(a.c0, b.c0, d.c0);
    lemma_sums(a.c1, b.c1, d.c1);
    lemma_sums(a.c2, b.c2, d.c2);
    lemma_sums(a.c3, b.c3, d.c3);
    lemma_wraps(a.c0, b.c0);
    lemma_wraps(a.c1, b.c1);
    lemma_wraps(a.c2, b.c2);
    lemma_wraps(a.c3, b.c3);
}

/// Sums of elements can be reordered and regrouped.
pub proof fn lemma_e_add(a: BBExt, b: BBExt, c: BBExt)
    requires
        a.wf(),
        b.wf(),
        c.wf(),
    ensures
        e_add(a, b) == e_add(b, a),
        e_add(e_add(a, b), c) == e_add(a, e_add(b, c)),
        e_add(a, e_base(0)) == a,
        e_add(a, b).wf(),
{
    lemma_sums(a.c0, b.c0, c.c0);
    lemma_sums(a.c1, b.c1, c.c1);
    lemma_sums(a.c2, b.c2, c.c2);
    lemma_sums(a.c3, b.c3, c.c3);
}

pub proof fn lemma_e_mul_wf(a: BBExt, b: BBExt)
    ensures
        e_mul(a, b).wf(),
{
    let p = BABYBEAR_P as int;
    lemma_mod_bound(a.c0 * b.c0 + 11 * (a.c1 * b.c3 + a.c2 * b.c2 + a.c3 * b.c1), p);
    lemma_mod_bound(a.c0 * b.c1 + a.c1 * b.c0 + 11 * (a.c2 * b.c3 + a.c3 * b.c2), p);
    lemma_mod_bound(a.c0 * b.c2 + a.c1 * b.c1 + a.c2 * b.c0 + 11 * (a.c3 * b.c3), p);
    lemma_mod_bound(a.c0 * b.c3 + a.c1 * b.c2 + a.c2 * b.c1 + a.c3 * b.c0, p);
}

/// The extension is the commutative ring of polynomials of degree below 4 modulo `x^4 - 11`: sums are
/// taken coefficient by coefficient, products distribute over them, base elements multiply as in the
/// base field and each coefficient by itself, and the powers of `x` are what they are in that ring.
/// These properties determine both operations.
#[verifier::spinoff_prover]
#[verifier::rlimit(40)]
pub proof fn law_extension_operations(a: BBExt, b: BBExt, c: BBExt, v: u32)
    requires
        a.wf(),
        b.wf(),
        c.wf(),
        v < BABYBEAR_P,
    ensures
        e_add(a, b) == (BBExt {
            c0: f_add(a.c0, b.c0),
            c1: f_add(a.c1, b.c1),
            c2: f_add(a.c2, b.c2),
            c3: f_add(a.c3, b.c3),
        }),
        e_add(e_sub(a, b), b) == a,
        e_mul(a, b) == e_mul(b, a),
        e_mul(e_mul(a, b), c) == e_mul(a, e_mul(b, c)),
        e_mul(a, e_add(b, c)) == e_add(e_mul(a, b), e_mul(a, c)),
        e_mul(e_base(v), a) == (BBExt {
            c0: f_mul(v, a.c0),
            c1: f_mul(v, a.c1),
            c2: f_mul(v, a.c2),
            c3: f_mul(v, a.c3),
        }),
        ({
            let x = BBExt { c0: 0, c1: 1, c2: 0, c3: 0 };
            let x2 = BBExt { c0: 0, c1: 0, c2: 1, c3: 0 };
            let x3 = BBExt { c0: 0, c1: 0, c2: 0, c3: 1 };
            &&& e_mul(x, x) == x2
            &&& e_mul(x2, x) == x3
            &&& e_mul(x3, x) == e_base(11)
        }),
{
    assert(e_add(e_sub(a, b), b) == a) by {
        lemma_e_difference(a, b, e_sub(a, b));
    }
    assert(e_mul(a, e_add(b, c)) == e_add(e_mul(a, b), e_mul(a, c))) by {
        lemma_mul_distributes(a, b, c);
        lemma_mul_commutes(a, e_add(b, c));
        lemma_mul_commutes(a, b);
        lemma_mul_commutes(a, c);
    }
    lemma_mul_commutes(a, b);
    lemma_mul_associates(a, b, c);
    lemma_scaled(v, a);
    lemma_powers_of_x();
}

/// The powers of `x`.
proof fn lemma_powers_of_x()
    ensures
        ({
            let x = BBExt { c0: 0, c1: 1, c2: 0, c3: 0 };
            let x2 = BBExt { c0: 0, c1: 0, c2: 1, c3: 0 };
            let x3 = BBExt { c0: 0, c1: 0, c2: 0, c3: 1 };
            &&& e_mul(x, x) == x2
            &&& e_mul(x2, x) == x3
            &&& e_mul(x3, x) == e_base(11)
        }),
{
}

/// A base element multiplies each coefficient by itself.
proof fn lemma_scaled(v: u32, a: BBExt)
    ensures
        e_mul(e_base(v), a) == (BBExt {
            c0: f_mul(v, a.c0),
            c1: f_mul(v, a.c1),
            c2: f_mul(v, a.c2),
            c3: f_mul(v, a.c3),
        }),
{
    assert(0 * a.c0 == 0 && 0 * a.c1 == 0 && 0 * a.c2 == 0 && 0 * a.c3 == 0);
}

/// `a * (b - c) + a * c = a * b`, and nothing else has this sum.
pub proof fn lemma_e_mul_difference(a: BBExt, b: BBExt, c: BBExt, t: BBExt)
    requires
        a.wf(),
        b.wf(),
        c.wf(),
        t.wf(),
    ensures
        t == e_mul(a, e_sub(b, c)) <==> e_add(t, e_mul(a, c)) == e_mul(a, b),
{
    let d = e_sub(b, c);
    lemma_e_difference(b, c, d);
    lemma_mul_distributes(a, d, c);
    lemma_mul_commutes(a, d);
    lemma_mul_commutes(a, c);
    lemma_mul_commutes(a, b);
    lemma_e_mul_wf(a, d);
    lemma_e_mul_wf(a, c);
    lemma_e_mul_wf(a, b);
    lemma_e_difference(e_mul(a, b), e_mul(a, c), t);
    lemma_e_difference(e_mul(a, b), e_mul(a, c), e_mul(a, d));
}

} // verus!
