//! The extension is a commutative ring.

use vstd::arithmetic::div_mod::{
    lemma_add_mod_noop, lemma_fundamental_div_mod, lemma_mod_multiples_vanish,
};
use vstd::prelude::*;

use crate::babybear::BABYBEAR_P;
use crate::extension::{e_add, e_base, e_mul, BBExt};

verus! {

/// Reducing one side of each product does not change a sum of products in the field.
proof fn lemma_reduce_sum(x: Seq<int>, y: Seq<int>, n: nat)
    requires
        n <= x.len(),
        n <= y.len(),
    ensures
        dot(reduced(x), y, n) % (BABYBEAR_P as int) == dot(x, y, n) % (BABYBEAR_P as int),
    decreases n,
{
    let p = BABYBEAR_P as int;
    if n > 0 {
        let m = (n - 1) as nat;
        lemma_reduce_sum(x, y, m);
        lemma_fundamental_div_mod(x[n - 1], p);
        let q = x[n - 1] / p;
        let r = x[n - 1] % p;
        let s = dot(reduced(x), y, m);
        let t = dot(x, y, m);
        assert(x[n - 1] * y[n - 1] == r * y[n - 1] + p * (q * y[n - 1])) by (nonlinear_arith)
            requires
                x[n - 1] == p * q + r,
        ;
        lemma_fundamental_div_mod(s, p);
        lemma_fundamental_div_mod(t, p);
        let k = q * y[n - 1] + t / p - s / p;
        assert(t + x[n - 1] * y[n - 1] == p * k + (s + r * y[n - 1])) by (nonlinear_arith)
            requires
                x[n - 1] * y[n - 1] == r * y[n - 1] + p * (q * y[n - 1]),
                s == p * (s / p) + s % p,
                t == p * (t / p) + t % p,
                s % p == t % p,
                k == q * y[n - 1] + t / p - s / p,
        ;
        lemma_mod_multiples_vanish(k, s + r * y[n - 1], p);
    }
}

/// The sum of the first `n` products of two lists.
spec fn dot(x: Seq<int>, y: Seq<int>, n: nat) -> int
    decreases n,
{
    if n == 0 {
        0
    } else {
        dot(x, y, (n - 1) as nat) + x[n - 1] * y[n - 1]
    }
}

/// The remainders of a list of numbers.
spec fn reduced(x: Seq<int>) -> Seq<int> {
    x.map_values(|v: int| v % (BABYBEAR_P as int))
}

proof fn lemma_dot_4(x0: int, x1: int, x2: int, x3: int, y0: int, y1: int, y2: int, y3: int)
    ensures
        ((x0 % (BABYBEAR_P as int)) * y0 + (x1 % (BABYBEAR_P as int)) * y1 + (x2 % (
        BABYBEAR_P as int)) * y2 + (x3 % (BABYBEAR_P as int)) * y3) % (BABYBEAR_P as int) == (x0
            * y0 + x1 * y1 + x2 * y2 + x3 * y3) % (BABYBEAR_P as int),
{
    let x = seq![x0, x1, x2, x3];
    let y = seq![y0, y1, y2, y3];
    lemma_reduce_sum(x, y, 4);
    reveal_with_fuel(dot, 5);
}

/// `a * b = b * a`.
pub proof fn lemma_mul_commutes(a: BBExt, b: BBExt)
    ensures
        e_mul(a, b) == e_mul(b, a),
{
    assert(a.c0 * b.c0 == b.c0 * a.c0) by (nonlinear_arith);
    assert(a.c0 * b.c1 == b.c1 * a.c0) by (nonlinear_arith);
    assert(a.c0 * b.c2 == b.c2 * a.c0) by (nonlinear_arith);
    assert(a.c0 * b.c3 == b.c3 * a.c0) by (nonlinear_arith);
    assert(a.c1 * b.c0 == b.c0 * a.c1) by (nonlinear_arith);
    assert(a.c1 * b.c1 == b.c1 * a.c1) by (nonlinear_arith);
    assert(a.c1 * b.c2 == b.c2 * a.c1) by (nonlinear_arith);
    assert(a.c1 * b.c3 == b.c3 * a.c1) by (nonlinear_arith);
    assert(a.c2 * b.c0 == b.c0 * a.c2) by (nonlinear_arith);
    assert(a.c2 * b.c1 == b.c1 * a.c2) by (nonlinear_arith);
    assert(a.c2 * b.c2 == b.c2 * a.c2) by (nonlinear_arith);
    assert(a.c2 * b.c3 == b.c3 * a.c2) by (nonlinear_arith);
    assert(a.c3 * b.c0 == b.c0 * a.c3) by (nonlinear_arith);
    assert(a.c3 * b.c1 == b.c1 * a.c3) by (nonlinear_arith);
    assert(a.c3 * b.c2 == b.c2 * a.c3) by (nonlinear_arith);
    assert(a.c3 * b.c3 == b.c3 * a.c3) by (nonlinear_arith);
}

/// The unreduced coefficients of `a * b`.
spec fn wide(a: BBExt, b: BBExt) -> (int, int, int, int) {
    (
        a.c0 * b.c0 + 11 * (a.c1 * b.c3 + a.c2 * b.c2 + a.c3 * b.c1),
        a.c0 * b.c1 + a.c1 * b.c0 + 11 * (a.c2 * b.c3 + a.c3 * b.c2),
        a.c0 * b.c2 + a.c1 * b.c1 + a.c2 * b.c0 + 11 * (a.c3 * b.c3),
        a.c0 * b.c3 + a.c1 * b.c2 + a.c2 * b.c1 + a.c3 * b.c0,
    )
}

/// The coefficients of `(a * b) * c`, with `a * b` left unreduced.
proof fn lemma_left_product(a: BBExt, b: BBExt, c: BBExt)
    ensures
        ({
            let p = BABYBEAR_P as int;
            let (w0, w1, w2, w3) = wide(a, b);
            let r = e_mul(e_mul(a, b), c);
            &&& r.c0 == (w0 * c.c0 + w1 * (11 * c.c3) + w2 * (11 * c.c2) + w3 * (11 * c.c1)) % p
            &&& r.c1 == (w0 * c.c1 + w1 * c.c0 + w2 * (11 * c.c3) + w3 * (11 * c.c2)) % p
            &&& r.c2 == (w0 * c.c2 + w1 * c.c1 + w2 * c.c0 + w3 * (11 * c.c3)) % p
            &&& r.c3 == (w0 * c.c3 + w1 * c.c2 + w2 * c.c1 + w3 * c.c0) % p
        }),
{
    let (w0, w1, w2, w3) = wide(a, b);
    let ab = e_mul(a, b);
    lemma_dot_4(w0, w1, w2, w3, c.c0 as int, 11 * c.c3, 11 * c.c2, 11 * c.c1);
    lemma_dot_4(w0, w1, w2, w3, c.c1 as int, c.c0 as int, 11 * c.c3, 11 * c.c2);
    lemma_dot_4(w0, w1, w2, w3, c.c2 as int, c.c1 as int, c.c0 as int, 11 * c.c3);
    lemma_dot_4(w0, w1, w2, w3, c.c3 as int, c.c2 as int, c.c1 as int, c.c0 as int);
    assert(ab.c0 * c.c0 + 11 * (ab.c1 * c.c3 + ab.c2 * c.c2 + ab.c3 * c.c1) == ab.c0 * c.c0 + ab.c1
        * (11 * c.c3) + ab.c2 * (11 * c.c2) + ab.c3 * (11 * c.c1)) by (nonlinear_arith);
    assert(ab.c0 * c.c1 + ab.c1 * c.c0 + 11 * (ab.c2 * c.c3 + ab.c3 * c.c2) == ab.c0 * c.c1 + ab.c1
        * c.c0 + ab.c2 * (11 * c.c3) + ab.c3 * (11 * c.c2)) by (nonlinear_arith);
    assert(11 * (ab.c3 * c.c3) == ab.c3 * (11 * c.c3)) by (nonlinear_arith);
}

/// Multiplying the unreduced coefficients of `a * b` by a number multiplies each of their products.
proof fn lemma_spread(a: BBExt, b: BBExt, y: int)
    ensures
        ({
            let (w0, w1, w2, w3) = wide(a, b);
            &&& w0 * y == (a.c0 * b.c0) * y + 11 * ((a.c1 * b.c3) * y + (a.c2 * b.c2) * y + (a.c3
                * b.c1) * y)
            &&& w1 * y == (a.c0 * b.c1) * y + (a.c1 * b.c0) * y + 11 * ((a.c2 * b.c3) * y + (a.c3
                * b.c2) * y)
            &&& w2 * y == (a.c0 * b.c2) * y + (a.c1 * b.c1) * y + (a.c2 * b.c0) * y + 11 * ((a.c3
                * b.c3) * y)
            &&& w3 * y == (a.c0 * b.c3) * y + (a.c1 * b.c2) * y + (a.c2 * b.c1) * y + (a.c3 * b.c0)
                * y
        }),
{
    lemma_distribute(a.c0 * b.c0, a.c1 * b.c3, a.c2 * b.c2, a.c3 * b.c1, y);
    lemma_distribute(a.c0 * b.c1, a.c1 * b.c0, a.c2 * b.c3, a.c3 * b.c2, y);
    lemma_distribute(a.c0 * b.c2, a.c1 * b.c1, a.c2 * b.c0, a.c3 * b.c3, y);
    lemma_distribute(a.c0 * b.c3, a.c1 * b.c2, a.c2 * b.c1, a.c3 * b.c0, y);
}

proof fn lemma_distribute(p: int, q: int, r: int, s: int, y: int)
    by (nonlinear_arith)
    ensures
        (p + 11 * (q + r + s)) * y == p * y + 11 * (q * y + r * y + s * y),
        (p + q + 11 * (r + s)) * y == p * y + q * y + 11 * (r * y + s * y),
        (p + q + r + 11 * s) * y == p * y + q * y + r * y + 11 * (s * y),
        (p + q + r + s) * y == p * y + q * y + r * y + s * y,
{
}

/// Any two of three factors may be multiplied first.
proof fn lemma_turn(x: u32, y: u32, z: u32)
    by (nonlinear_arith)
    ensures
        (x * y) * z == (y * z) * x,
{
}

/// [`lemma_turn`] for a number and all coefficients of two elements.
proof fn lemma_turns(x: u32, b: BBExt, c: BBExt)
    ensures
        (x * b.c0) * c.c0 == (b.c0 * c.c0) * x,
        (x * b.c0) * c.c1 == (b.c0 * c.c1) * x,
        (x * b.c0) * c.c2 == (b.c0 * c.c2) * x,
        (x * b.c0) * c.c3 == (b.c0 * c.c3) * x,
        (x * b.c1) * c.c0 == (b.c1 * c.c0) * x,
        (x * b.c1) * c.c1 == (b.c1 * c.c1) * x,
        (x * b.c1) * c.c2 == (b.c1 * c.c2) * x,
        (x * b.c1) * c.c3 == (b.c1 * c.c3) * x,
        (x * b.c2) * c.c0 == (b.c2 * c.c0) * x,
        (x * b.c2) * c.c1 == (b.c2 * c.c1) * x,
        (x * b.c2) * c.c2 == (b.c2 * c.c2) * x,
        (x * b.c2) * c.c3 == (b.c2 * c.c3) * x,
        (x * b.c3) * c.c0 == (b.c3 * c.c0) * x,
        (x * b.c3) * c.c1 == (b.c3 * c.c1) * x,
        (x * b.c3) * c.c2 == (b.c3 * c.c2) * x,
        (x * b.c3) * c.c3 == (b.c3 * c.c3) * x,
{
    lemma_turn(x, b.c0, c.c0);
    lemma_turn(x, b.c0, c.c1);
    lemma_turn(x, b.c0, c.c2);
    lemma_turn(x, b.c0, c.c3);
    lemma_turn(x, b.c1, c.c0);
    lemma_turn(x, b.c1, c.c1);
    lemma_turn(x, b.c1, c.c2);
    lemma_turn(x, b.c1, c.c3);
    lemma_turn(x, b.c2, c.c0);
    lemma_turn(x, b.c2, c.c1);
    lemma_turn(x, b.c2, c.c2);
    lemma_turn(x, b.c2, c.c3);
    lemma_turn(x, b.c3, c.c0);
    lemma_turn(x, b.c3, c.c1);
    lemma_turn(x, b.c3, c.c2);
    lemma_turn(x, b.c3, c.c3);
}

proof fn lemma_scale(x: int, y: u32)
    by (nonlinear_arith)
    ensures
        x * (11 * y) == 11 * (x * y),
{
}

/// The factor 11 may be taken out of the products of [`lemma_left_product`].
proof fn lemma_scales(a: BBExt, b: BBExt, c: BBExt)
    ensures
        ({
            let (w0, w1, w2, w3) = wide(a, b);
            &&& w1 * (11 * c.c3) == 11 * (w1 * c.c3)
            &&& w2 * (11 * c.c2) == 11 * (w2 * c.c2)
            &&& w2 * (11 * c.c3) == 11 * (w2 * c.c3)
            &&& w3 * (11 * c.c1) == 11 * (w3 * c.c1)
            &&& w3 * (11 * c.c2) == 11 * (w3 * c.c2)
            &&& w3 * (11 * c.c3) == 11 * (w3 * c.c3)
        }),
{
    let (w0, w1, w2, w3) = wide(a, b);
    lemma_scale(w1, c.c3);
    lemma_scale(w2, c.c2);
    lemma_scale(w2, c.c3);
    lemma_scale(w3, c.c1);
    lemma_scale(w3, c.c2);
    lemma_scale(w3, c.c3);
}

/// `(a * b) * c = a * (b * c)`.
pub proof fn lemma_mul_associates(a: BBExt, b: BBExt, c: BBExt)
    ensures
        e_mul(e_mul(a, b), c) == e_mul(a, e_mul(b, c)),
{
    lemma_mul_commutes(a, e_mul(b, c));
    lemma_left_product(a, b, c);
    lemma_left_product(b, c, a);
    lemma_scales(a, b, c);
    lemma_scales(b, c, a);
    lemma_spread(a, b, c.c0 as int);
    lemma_spread(a, b, c.c1 as int);
    lemma_spread(a, b, c.c2 as int);
    lemma_spread(a, b, c.c3 as int);
    lemma_spread(b, c, a.c0 as int);
    lemma_spread(b, c, a.c1 as int);
    lemma_spread(b, c, a.c2 as int);
    lemma_spread(b, c, a.c3 as int);
    lemma_turns(a.c0, b, c);
    lemma_turns(a.c1, b, c);
    lemma_turns(a.c2, b, c);
    lemma_turns(a.c3, b, c);
}

proof fn lemma_add_times(x: u32, y: u32, z: u32)
    by (nonlinear_arith)
    ensures
        (x + y) * z == x * z + y * z,
        (x + y) * (11 * z) == 11 * (x * z) + 11 * (y * z),
{
}

/// [`lemma_add_times`] for two numbers and all coefficients of an element.
proof fn lemma_adds_times(x: u32, y: u32, a: BBExt)
    ensures
        (x + y) * a.c0 == x * a.c0 + y * a.c0,
        (x + y) * a.c1 == x * a.c1 + y * a.c1,
        (x + y) * a.c2 == x * a.c2 + y * a.c2,
        (x + y) * a.c3 == x * a.c3 + y * a.c3,
        (x + y) * (11 * a.c1) == 11 * (x * a.c1) + 11 * (y * a.c1),
        (x + y) * (11 * a.c2) == 11 * (x * a.c2) + 11 * (y * a.c2),
        (x + y) * (11 * a.c3) == 11 * (x * a.c3) + 11 * (y * a.c3),
{
    lemma_add_times(x, y, a.c0);
    lemma_add_times(x, y, a.c1);
    lemma_add_times(x, y, a.c2);
    lemma_add_times(x, y, a.c3);
}

/// The factor 11 may be taken out of the products of an element with another.
proof fn lemma_eleven(s: BBExt, a: BBExt)
    ensures
        s.c1 * (11 * a.c3) == 11 * (s.c1 * a.c3),
        s.c2 * (11 * a.c2) == 11 * (s.c2 * a.c2),
        s.c2 * (11 * a.c3) == 11 * (s.c2 * a.c3),
        s.c3 * (11 * a.c1) == 11 * (s.c3 * a.c1),
        s.c3 * (11 * a.c2) == 11 * (s.c3 * a.c2),
        s.c3 * (11 * a.c3) == 11 * (s.c3 * a.c3),
{
    lemma_scale(s.c1 as int, a.c3);
    lemma_scale(s.c2 as int, a.c2);
    lemma_scale(s.c2 as int, a.c3);
    lemma_scale(s.c3 as int, a.c1);
    lemma_scale(s.c3 as int, a.c2);
    lemma_scale(s.c3 as int, a.c3);
}

/// `(b + c) * a = b * a + c * a`.
pub proof fn lemma_mul_distributes(a: BBExt, b: BBExt, c: BBExt)
    ensures
        e_mul(e_add(b, c), a) == e_add(e_mul(b, a), e_mul(c, a)),
{
    let p = BABYBEAR_P as int;
    let s = e_add(b, c);
    let (t0, t1, t2, t3) = (b.c0 + c.c0, b.c1 + c.c1, b.c2 + c.c2, b.c3 + c.c3);
    let (a0, a1, a2, a3) = (a.c0 as int, a.c1 as int, a.c2 as int, a.c3 as int);
    lemma_dot_4(t0, t1, t2, t3, a0, 11 * a3, 11 * a2, 11 * a1);
    lemma_dot_4(t0, t1, t2, t3, a1, a0, 11 * a3, 11 * a2);
    lemma_dot_4(t0, t1, t2, t3, a2, a1, a0, 11 * a3);
    lemma_dot_4(t0, t1, t2, t3, a3, a2, a1, a0);
    lemma_eleven(s, a);
    lemma_adds_times(b.c0, c.c0, a);
    lemma_adds_times(b.c1, c.c1, a);
    lemma_adds_times(b.c2, c.c2, a);
    lemma_adds_times(b.c3, c.c3, a);
    let (v0, v1, v2, v3) = wide(b, a);
    let (w0, w1, w2, w3) = wide(c, a);
    lemma_add_mod_noop(v0, w0, p);
    lemma_add_mod_noop(v1, w1, p);
    lemma_add_mod_noop(v2, w2, p);
    lemma_add_mod_noop(v3, w3, p);
}

/// `0 * a = 0`.
pub proof fn lemma_mul_zero(a: BBExt)
    ensures
        e_mul(e_base(0), a) == e_base(0),
{
    assert(0 * a.c0 == 0 && 0 * a.c1 == 0 && 0 * a.c2 == 0 && 0 * a.c3 == 0);
}

} // verus!
