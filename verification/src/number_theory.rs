//! What is needed of prime numbers: Euclid's lemma, Fermat's little theorem, and the square roots
//! of 1.

use vstd::arithmetic::div_mod::{
    lemma_fundamental_div_mod, lemma_mod_bound, lemma_mod_multiples_basic, lemma_mul_mod_noop,
    lemma_mul_mod_noop_right, lemma_small_mod, lemma_sub_mod_noop,
};
use vstd::arithmetic::power::{lemma_pow0, lemma_pow1, lemma_pow_adds, pow};
use vstd::prelude::*;
use vstd::seq_lib::lemma_fold_left_permutation;
use vstd::set_lib::lemma_subset_equality;

verus! {

/// `n` is a prime number.
pub open spec fn is_prime(n: int) -> bool {
    n >= 2 && forall|d: int| 1 < d < n ==> #[trigger] (n % d) != 0
}

/// Euclid's lemma for a factor below the prime.
proof fn lemma_euclid_small(p: int, a: int, b: int)
    requires
        is_prime(p),
        0 < a < p,
        (a * b) % p == 0,
    ensures
        b % p == 0,
    decreases a,
{
    if a == 1 {
        assert(a * b == b);
    } else {
        let q = p / a;
        let r = p % a;
        let k = (a * b) / p;
        lemma_fundamental_div_mod(p, a);
        lemma_fundamental_div_mod(a * b, p);
        lemma_mod_bound(p, a);
        assert(r * b == (b - q * k) * p) by (nonlinear_arith)
            requires
                p == a * q + r,
                a * b == p * k + 0,
        ;
        lemma_mod_multiples_basic(b - q * k, p);
        lemma_euclid_small(p, r, b);
    }
}

/// A prime that divides a product divides one of its factors.
pub proof fn lemma_euclid(p: int, a: int, b: int)
    requires
        is_prime(p),
        (a * b) % p == 0,
    ensures
        a % p == 0 || b % p == 0,
{
    if a % p != 0 {
        lemma_mod_bound(a, p);
        vstd::arithmetic::div_mod::lemma_mul_mod_noop_left(a, b, p);
        lemma_euclid_small(p, a % p, b);
    }
}

/// The residues `1, 2, .., n`.
spec fn residues(n: nat) -> Seq<int> {
    Seq::new(n, |i: int| i + 1)
}

/// The residues `a, 2a, .., na` modulo `p`.
spec fn scaled(a: int, p: int, n: nat) -> Seq<int> {
    Seq::new(n, |i: int| (a * (i + 1)) % p)
}

spec fn times() -> spec_fn(int, int) -> int {
    |x: int, y: int| x * y
}

spec fn product_of(s: Seq<int>) -> int {
    s.fold_left(1, times())
}

proof fn lemma_product_push(s: Seq<int>, x: int)
    ensures
        product_of(s.push(x)) == product_of(s) * x,
{
    assert(s.push(x).drop_last() =~= s);
}

/// The product of the residues below a prime is not divisible by it.
proof fn lemma_factorial_not_divisible(p: int, n: nat)
    requires
        is_prime(p),
        n < p,
    ensures
        product_of(residues(n)) % p != 0,
    decreases n,
{
    if n == 0 {
        assert(residues(0) =~= Seq::empty());
        lemma_small_mod(1, p as nat);
    } else {
        let m = (n - 1) as nat;
        lemma_factorial_not_divisible(p, m);
        assert(residues(n) =~= residues(m).push(n as int));
        lemma_product_push(residues(m), n as int);
        if product_of(residues(n)) % p == 0 {
            lemma_euclid(p, product_of(residues(m)), n as int);
            lemma_small_mod(n, p as nat);
        }
    }
}

/// The product of the scaled residues is `a^n` times the product of the residues.
proof fn lemma_scaled_product(a: int, p: int, n: nat)
    requires
        p > 0,
    ensures
        product_of(scaled(a, p, n)) % p == (pow(a, n) * product_of(residues(n))) % p,
    decreases n,
{
    if n == 0 {
        assert(residues(0) =~= Seq::empty());
        assert(scaled(a, p, 0) =~= Seq::empty());
        lemma_pow0(a);
    } else {
        let m = (n - 1) as nat;
        lemma_scaled_product(a, p, m);
        let s = product_of(scaled(a, p, m));
        let f = product_of(residues(m));
        let x = a * n;
        assert(residues(n) =~= residues(m).push(n as int));
        assert(scaled(a, p, n) =~= scaled(a, p, m).push(x % p));
        lemma_product_push(residues(m), n as int);
        lemma_product_push(scaled(a, p, m), x % p);
        lemma_mul_mod_noop_right(s, x, p);
        lemma_mul_mod_noop(s, x, p);
        lemma_mul_mod_noop(pow(a, m) * f, x, p);
        lemma_pow1(a);
        lemma_pow_adds(a, m, 1);
        let q = pow(a, m);
        assert((q * f) * (a * n) == (q * a) * (f * n)) by (nonlinear_arith);
    }
}

/// Scaling by something that the prime does not divide permutes the residues.
proof fn lemma_scaled_is_permutation(a: int, p: int)
    requires
        is_prime(p),
        a % p != 0,
    ensures
        scaled(a, p, (p - 1) as nat).to_multiset() == residues((p - 1) as nat).to_multiset(),
{
    broadcast use vstd::seq_lib::group_to_multiset_ensures;

    let n = (p - 1) as nat;
    let r = residues(n);
    let s = scaled(a, p, n);
    assert forall|i: int, j: int| 0 <= i < n && 0 <= j < n && i != j implies s[i] != s[j] by {
        if s[i] == s[j] {
            let x = a * (i + 1);
            let y = a * (j + 1);
            lemma_sub_mod_noop(x, y, p);
            assert(x - y == a * (i - j)) by (nonlinear_arith)
                requires
                    x == a * (i + 1),
                    y == a * (j + 1),
            ;
            assert((x - y) % p == 0) by {
                assert(x % p - y % p == 0);
                lemma_small_mod(0, p as nat);
            }
            lemma_euclid(p, a, i - j);
            if i > j {
                lemma_small_mod((i - j) as nat, p as nat);
            } else {
                vstd::arithmetic::div_mod::lemma_mod_add_multiples_vanish(i - j, p);
                lemma_small_mod((p + i - j) as nat, p as nat);
            }
        }
    }
    assert(s.no_duplicates());
    assert(r.no_duplicates());
    s.unique_seq_to_set();
    r.unique_seq_to_set();
    s.lemma_multiset_has_no_duplicates();
    r.lemma_multiset_has_no_duplicates();
    assert forall|v: int| s.to_set().contains(v) implies r.to_set().contains(v) by {
        let i = choose|i: int| 0 <= i < n && s[i] == v;
        lemma_mod_bound(a * (i + 1), p);
        if v == 0 {
            lemma_euclid(p, a, i + 1);
            lemma_small_mod((i + 1) as nat, p as nat);
        }
        assert(r[v - 1] == v);
    }
    vstd::seq_lib::seq_to_set_is_finite(s);
    vstd::seq_lib::seq_to_set_is_finite(r);
    lemma_subset_equality(s.to_set(), r.to_set());
    assert forall|v: int| s.to_multiset().count(v) == r.to_multiset().count(v) by {
        assert(s.contains(v) == s.to_set().contains(v));
        assert(r.contains(v) == r.to_set().contains(v));
        assert(s.contains(v) == (s.to_multiset().count(v) > 0));
        assert(r.contains(v) == (r.to_multiset().count(v) > 0));
    }
    assert(s.to_multiset() =~= r.to_multiset());
}

/// Fermat's little theorem.
pub proof fn lemma_fermat(p: int, a: int)
    requires
        is_prime(p),
        a % p != 0,
    ensures
        pow(a, (p - 1) as nat) % p == 1,
{
    let n = (p - 1) as nat;
    let f = product_of(residues(n));
    let g = pow(a, n);
    lemma_scaled_is_permutation(a, p);
    assert(vstd::seq_lib::commutative_foldl(times())) by {
        assert forall|x: int, y: int, v: int| #[trigger]
            times()(times()(v, x), y) == times()(times()(v, y), x) by {
            assert((v * x) * y == (v * y) * x) by (nonlinear_arith);
        }
    }
    lemma_fold_left_permutation(scaled(a, p, n), residues(n), times(), 1);
    lemma_scaled_product(a, p, n);
    assert(f % p == (g * f) % p);
    lemma_sub_mod_noop(g * f, f, p);
    assert((g * f - f) % p == 0) by {
        assert((g * f) % p - f % p == 0);
        lemma_small_mod(0, p as nat);
    }
    assert(g * f - f == (g - 1) * f) by (nonlinear_arith);
    lemma_factorial_not_divisible(p, n);
    lemma_euclid(p, g - 1, f);
    lemma_fundamental_div_mod(g - 1, p);
    let k = (g - 1) / p;
    assert(g == p * k + 1);
    vstd::arithmetic::div_mod::lemma_fundamental_div_mod_converse(g, p, k, 1);
}

/// Modulo a prime, 1 has no square roots but 1 and -1.
pub proof fn lemma_root_of_one(p: int, x: int)
    requires
        is_prime(p),
        (x * x) % p == 1,
    ensures
        x % p == 1 || x % p == p - 1,
{
    lemma_fundamental_div_mod(x * x, p);
    let k = (x * x) / p;
    assert((x - 1) * (x + 1) == k * p) by (nonlinear_arith)
        requires
            x * x == p * k + 1,
    ;
    lemma_mod_multiples_basic(k, p);
    lemma_euclid(p, x - 1, x + 1);
    if (x - 1) % p == 0 {
        lemma_fundamental_div_mod(x - 1, p);
        let q = (x - 1) / p;
        vstd::arithmetic::div_mod::lemma_fundamental_div_mod_converse(x, p, q, 1);
    } else {
        lemma_fundamental_div_mod(x + 1, p);
        let q = (x + 1) / p;
        assert(x == p * (q - 1) + (p - 1)) by (nonlinear_arith)
            requires
                x + 1 == p * q,
        ;
        vstd::arithmetic::div_mod::lemma_fundamental_div_mod_converse(x, p, q - 1, p - 1);
    }
}

} // verus!
