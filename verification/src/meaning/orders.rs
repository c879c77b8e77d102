//! Sorted names, rounded sizes, trimmed texts and the primality test, each by what it has to satisfy.

use vstd::arithmetic::power::pow;
use vstd::arithmetic::power2::{lemma_pow2_unfold, pow2};
use vstd::prelude::*;
use vstd::utf8::encode_utf8;

use crate::bytes::{lemma_words_bytes_len, words_bytes};
use crate::hexadecimal::{is_space, trimmed, trimmed_end, trimmed_start};
use crate::names::{
    insert_by_name, lemma_lex_le_reflexive, lemma_sorted_by_name, lex_le, name_le, sorted_by_name,
};
use crate::primality::{
    is_small_prime, odd_part, passes_primality_test, strong_probable_prime, twos, witness_power, BASES,
    SMALL_PRIMES,
};
use crate::sizing::{
    base_elements, ceil_div, ceil_log2, lemma_ceil_div_least, padded_rows, sum_bytes, trace_bytes, TraceSize,
};

verus! {

/// `a` comes before `b`, or is equal to it: they agree up to a place where `a` ends, or where both go on
/// and `a` has the smaller byte.
pub open spec fn precedes(a: Seq<u8>, b: Seq<u8>, k: int) -> bool {
    &&& 0 <= k <= a.len()
    &&& k <= b.len()
    &&& a.take(k) == b.take(k)
    &&& k == a.len() || (k < b.len() && a[k] < b[k])
}

/// The order of byte strings is the lexicographic one.
pub proof fn law_order_is_lexicographic(a: Seq<u8>, b: Seq<u8>)
    ensures
        lex_le(a, b) <==> exists|k: int| precedes(a, b, k),
    decreases a.len(),
{
    if a.len() == 0 {
        assert(a.take(0) =~= b.take(0));
        assert(precedes(a, b, 0));
    } else if b.len() == 0 {
        assert forall|k: int| !precedes(a, b, k) by {}
    } else if a[0] != b[0] {
        assert(a.take(0) =~= b.take(0));
        assert(precedes(a, b, 0) == (a[0] < b[0]));
        assert forall|k: int| k != 0 implies !precedes(a, b, k) by {
            if precedes(a, b, k) {
                assert(a.take(k)[0] == b.take(k)[0]);
            }
        }
    } else {
        let (x, y) = (a.skip(1), b.skip(1));
        law_order_is_lexicographic(x, y);
        assert forall|k: int| precedes(x, y, k) implies precedes(a, b, k + 1) by {
            let (u, v) = (a.take(k + 1), b.take(k + 1));
            assert forall|i: int| 0 <= i < k + 1 implies #[trigger] u[i] == v[i] by {
                if i > 0 {
                    assert(x.take(k)[i - 1] == y.take(k)[i - 1]);
                }
            }
            assert(u =~= v);
        }
        assert forall|k: int| precedes(a, b, k) implies precedes(x, y, k - 1) by {
            assert(k > 0);
            let (u, v) = (x.take(k - 1), y.take(k - 1));
            assert forall|i: int| 0 <= i < k - 1 implies #[trigger] u[i] == v[i] by {
                assert(a.take(k)[i + 1] == b.take(k)[i + 1]);
            }
            assert(u =~= v);
        }
        if lex_le(a, b) {
            let k = choose|k: int| precedes(x, y, k);
            assert(precedes(a, b, k + 1));
        }
        if exists|k: int| precedes(a, b, k) {
            let k = choose|k: int| precedes(a, b, k);
            assert(precedes(x, y, k - 1));
        }
    }
}

/// Items of the same name stand in the order of their numbers.
pub open spec fn is_stable(s: Seq<(Seq<char>, nat)>) -> bool {
    forall|i: int, j: int|
        0 <= i < j < s.len() && (#[trigger] s[i]).0 == (#[trigger] s[j]).0 ==> s[i].1 < s[j].1
}

proof fn lemma_insert_stable(s: Seq<(Seq<char>, nat)>, x: (Seq<char>, nat))
    requires
        is_stable(s),
        forall|i: int| 0 <= i < s.len() ==> (#[trigger] s[i]).1 < x.1,
    ensures
        is_stable(insert_by_name(s, x)),
        insert_by_name(s, x).len() == s.len() + 1,
        forall|i: int|
            0 <= i <= s.len() ==> #[trigger] insert_by_name(s, x)[i] == x || (exists|k: int|
                0 <= k < s.len() && s[k] == insert_by_name(s, x)[i]),
    decreases s.len(),
{
    let r = insert_by_name(s, x);
    if s.len() == 0 || name_le(s.last().0, x.0) {
        assert forall|i: int| 0 <= i <= s.len() implies #[trigger] r[i] == x || (exists|k: int|
            0 <= k < s.len() && s[k] == r[i]) by {
            if i < s.len() {
                assert(s[i] == r[i]);
            }
        }
    } else {
        let t = s.drop_last();
        let last = s.last();
        assert forall|i: int, j: int|
            0 <= i < j < t.len() && (#[trigger] t[i]).0 == (#[trigger] t[j]).0 implies t[i].1
            < t[j].1 by {
            assert(s[i] == t[i] && s[j] == t[j]);
        }
        assert forall|i: int| 0 <= i < t.len() implies (#[trigger] t[i]).1 < x.1 by {
            assert(s[i] == t[i]);
        }
        lemma_insert_stable(t, x);
        let q = insert_by_name(t, x);
        assert(r == q.push(last));
        lemma_lex_le_reflexive(encode_utf8(last.0));
        assert(last.0 != x.0);
        assert forall|i: int| 0 <= i <= s.len() implies #[trigger] r[i] == x || (exists|k: int|
            0 <= k < s.len() && s[k] == r[i]) by {
            if i == s.len() {
                assert(s[s.len() - 1] == r[i]);
            } else {
                assert(r[i] == q[i]);
                if q[i] != x {
                    let k = choose|k: int| 0 <= k < t.len() && t[k] == q[i];
                    assert(s[k] == r[i]);
                }
            }
        }
        assert forall|i: int, j: int|
            0 <= i < j < r.len() && (#[trigger] r[i]).0 == (#[trigger] r[j]).0 implies r[i].1
            < r[j].1 by {
            assert(r[i] == q[i]);
            if j < q.len() {
                assert(r[j] == q[j]);
            } else {
                assert(q[i] != x);
                let k = choose|k: int| 0 <= k < t.len() && t[k] == q[i];
                assert(s[k] == q[i] && s[s.len() - 1] == last);
            }
        }
    }
}

/// Sorting named items that are numbered in order gives the same items in the lexicographic order of the
/// names' bytes, and those of the same name in the order of their numbers.
pub proof fn law_names_are_sorted(items: Seq<(Seq<char>, nat)>)
    requires
        forall|i: int| 0 <= i < items.len() ==> (#[trigger] items[i]).1 == i,
    ensures
        sorted_by_name(items).len() == items.len(),
        sorted_by_name(items).to_multiset() == items.to_multiset(),
        forall|i: int, j: int|
            0 <= i < j < items.len() ==> lex_le(
                encode_utf8((#[trigger] sorted_by_name(items)[i]).0),
                encode_utf8((#[trigger] sorted_by_name(items)[j]).0),
            ),
        is_stable(sorted_by_name(items)),
    decreases items.len(),
{
    lemma_sorted_by_name(items);
    let r = sorted_by_name(items);
    assert forall|i: int, j: int| 0 <= i < j < items.len() implies lex_le(
        encode_utf8((#[trigger] r[i]).0),
        encode_utf8((#[trigger] r[j]).0),
    ) by {
        assert(name_le(r[i].0, r[j].0));
    }
    lemma_sort_stable(items);
}

proof fn lemma_sort_stable(items: Seq<(Seq<char>, nat)>)
    requires
        forall|i: int| 0 <= i < items.len() ==> (#[trigger] items[i]).1 == i,
    ensures
        is_stable(sorted_by_name(items)),
        sorted_by_name(items).len() == items.len(),
        forall|i: int|
            0 <= i < items.len() ==> (#[trigger] sorted_by_name(items)[i]).1 < items.len(),
    decreases items.len(),
{
    if items.len() > 0 {
        let t = items.drop_last();
        assert forall|i: int| 0 <= i < t.len() implies (#[trigger] t[i]).1 == i by {
            assert(items[i] == t[i]);
        }
        lemma_sort_stable(t);
        let x = items.last();
        assert(items[items.len() - 1] == x);
        let s = sorted_by_name(t);
        lemma_insert_stable(s, x);
        let r = insert_by_name(s, x);
        assert forall|i: int| 0 <= i < r.len() implies (#[trigger] r[i]).1 < items.len() by {
            if r[i] != x {
                let k = choose|k: int| 0 <= k < s.len() && s[k] == r[i];
                assert(s[k].1 < t.len());
            }
        }
    }
}

/// Rounding up: the least number of groups of `d` that hold `n`.
pub proof fn law_rounded_quotient_is_least(n: nat, d: nat)
    requires
        d > 0,
    ensures
        n <= ceil_div(n, d) * d,
        ceil_div(n, d) * d < n + d,
{
    lemma_ceil_div_least(n, d);
}

/// The height of a binary tree: the least `k` for which `2^k` leaves hold `n`.
pub proof fn law_tree_height_is_least(n: nat)
    ensures
        n <= pow2(ceil_log2(n)),
        ceil_log2(n) > 0 ==> pow2((ceil_log2(n) - 1) as nat) < n,
        padded_rows(n) == pow2(ceil_log2(n)),
    decreases n,
{
    vstd::arithmetic::power2::lemma2_to64();
    if n > 1 {
        let m = ((n + 1) / 2) as nat;
        law_tree_height_is_least(m);
        let k = ceil_log2(m);
        assert(ceil_log2(n) == k + 1);
        lemma_pow2_unfold(k + 1);
        if k > 0 {
            lemma_pow2_unfold(k);
        }
    }
}

/// Sizes add up: the total of two lists together is the sum of their totals, and that of one chip is its
/// degree times its width.
pub proof fn law_sizes_add_up(a: Seq<(usize, usize)>, b: Seq<(usize, usize)>, c: (usize, usize))
    ensures
        base_elements(a + b, (a + b).len()) == base_elements(a, a.len()) + base_elements(b, b.len()),
        base_elements(seq![c], 1) == pow2(c.0 as nat) * c.1 as nat,
    decreases b.len(),
{
    reveal_with_fuel(base_elements, 2);
    if b.len() == 0 {
        assert(a + b =~= a);
    } else {
        let t = b.drop_last();
        law_sizes_add_up(a, t, c);
        assert((a + b).drop_last() =~= a + t);
        lemma_base_prefix(a + b, (a + t).len());
        lemma_base_prefix(b, t.len());
        assert((a + b).take((a + t).len() as int) =~= a + t);
        assert(b.take(t.len() as int) =~= t);
        assert((a + b)[(a + b).len() - 1] == b[b.len() - 1]);
    }
}

proof fn lemma_base_prefix(a: Seq<(usize, usize)>, n: nat)
    requires
        n <= a.len(),
    ensures
        base_elements(a, n) == base_elements(a.take(n as int), n),
    decreases n,
{
    if n > 0 {
        lemma_base_prefix(a, (n - 1) as nat);
        lemma_base_prefix(a.take(n as int), (n - 1) as nat);
        assert(a.take(n as int).take(n - 1) =~= a.take(n - 1));
    }
}

/// The length of a trace is that of its values, written one behind the other.
pub proof fn law_length_is_of_values(values: Seq<u32>, rows: nat, cols: nat)
    requires
        values.len() == rows * cols,
    ensures
        words_bytes(values).len() == trace_bytes(rows, cols),
{
    lemma_words_bytes_len(values);
}

/// The lengths of two lists of traces together are the sum of theirs.
pub proof fn law_lengths_add_up(a: Seq<TraceSize>, b: Seq<TraceSize>)
    ensures
        sum_bytes(a + b, (a + b).len()) == sum_bytes(a, a.len()) + sum_bytes(b, b.len()),
        b.len() == 1 ==> sum_bytes(b, 1) == b[0].bytes,
    decreases b.len(),
{
    reveal_with_fuel(sum_bytes, 2);
    if b.len() == 0 {
        assert(a + b =~= a);
    } else {
        let t = b.drop_last();
        law_lengths_add_up(a, t);
        lemma_bytes_prefix(a + b, (a + t).len());
        lemma_bytes_prefix(b, t.len());
        assert((a + b).take((a + t).len() as int) =~= a + t);
        assert(b.take(t.len() as int) =~= t);
        assert((a + b)[(a + b).len() - 1] == b[b.len() - 1]);
    }
}

proof fn lemma_bytes_prefix(a: Seq<TraceSize>, n: nat)
    requires
        n <= a.len(),
    ensures
        sum_bytes(a, n) == sum_bytes(a.take(n as int), n),
    decreases n,
{
    if n > 0 {
        lemma_bytes_prefix(a, (n - 1) as nat);
        lemma_bytes_prefix(a.take(n as int), (n - 1) as nat);
        assert(a.take(n as int).take(n - 1) =~= a.take(n - 1));
    }
}

/// What is trimmed off a text is white space only, and what is left neither begins nor ends with it.
pub proof fn law_trimmed_text(s: Seq<char>)
    ensures
        exists|i: int, j: int|
            #![trigger s.subrange(i, j)]
            {
                &&& 0 <= i <= j <= s.len()
                &&& trimmed(s) == s.subrange(i, j)
                &&& forall|k: int| 0 <= k < i ==> is_space(#[trigger] s[k])
                &&& forall|k: int| j <= k < s.len() ==> is_space(#[trigger] s[k])
            },
        trimmed(s).len() > 0 ==> !is_space(trimmed(s)[0]) && !is_space(trimmed(s).last()),
{
    let i = lemma_trimmed_start(s);
    let t = trimmed_start(s);
    let j = lemma_trimmed_end(t);
    let r = trimmed_end(t);
    assert(r =~= s.subrange(i, i + j));
    assert forall|k: int| i + j <= k < s.len() implies is_space(#[trigger] s[k]) by {
        assert(t[k - i] == s[k]);
    }
    assert(r.len() > 0 ==> r[0] == t[0]);
}

proof fn lemma_trimmed_start(s: Seq<char>) -> (i: int)
    ensures
        0 <= i <= s.len(),
        trimmed_start(s) == s.skip(i),
        forall|k: int| 0 <= k < i ==> is_space(#[trigger] s[k]),
        trimmed_start(s).len() > 0 ==> !is_space(trimmed_start(s)[0]),
    decreases s.len(),
{
    if s.len() > 0 && is_space(s[0]) {
        let t = s.skip(1);
        let i = lemma_trimmed_start(t);
        assert(t.skip(i) =~= s.skip(i + 1));
        assert forall|k: int| 0 <= k < i + 1 implies is_space(#[trigger] s[k]) by {
            if k > 0 {
                assert(t[k - 1] == s[k]);
            }
        }
        i + 1
    } else {
        assert(s.skip(0) =~= s);
        0
    }
}

proof fn lemma_trimmed_end(s: Seq<char>) -> (j: int)
    ensures
        0 <= j <= s.len(),
        trimmed_end(s) == s.take(j),
        forall|k: int| j <= k < s.len() ==> is_space(#[trigger] s[k]),
        trimmed_end(s).len() > 0 ==> !is_space(trimmed_end(s).last()),
    decreases s.len(),
{
    if s.len() > 0 && is_space(s.last()) {
        let t = s.drop_last();
        let j = lemma_trimmed_end(t);
        assert(t.take(j) =~= s.take(j));
        assert forall|k: int| j <= k < s.len() implies is_space(#[trigger] s[k]) by {
            if k < t.len() {
                assert(t[k] == s[k]);
            }
        }
        j
    } else {
        assert(s.take(s.len() as int) =~= s);
        s.len() as int
    }
}

/// White space is the 25 characters that Unicode says it is.
pub proof fn law_white_space(c: char)
    ensures
        is_space(c) <==> seq![
            0x09u32,
            0x0a,
            0x0b,
            0x0c,
            0x0d,
            0x20,
            0x85,
            0xa0,
            0x1680,
            0x2000,
            0x2001,
            0x2002,
            0x2003,
            0x2004,
            0x2005,
            0x2006,
            0x2007,
            0x2008,
            0x2009,
            0x200a,
            0x2028,
            0x2029,
            0x202f,
            0x205f,
            0x3000,
        ].contains(c as u32),
{
    let v = c as u32;
    let list = seq![
        0x09u32,
        0x0a,
        0x0b,
        0x0c,
        0x0d,
        0x20,
        0x85,
        0xa0,
        0x1680,
        0x2000,
        0x2001,
        0x2002,
        0x2003,
        0x2004,
        0x2005,
        0x2006,
        0x2007,
        0x2008,
        0x2009,
        0x200a,
        0x2028,
        0x2029,
        0x202f,
        0x205f,
        0x3000,
    ];
    assert(list[0] == 0x09 && list[1] == 0x0a && list[2] == 0x0b && list[3] == 0x0c && list[4]
        == 0x0d);
    assert(list[5] == 0x20 && list[6] == 0x85 && list[7] == 0xa0 && list[8] == 0x1680);
    assert(list[9] == 0x2000 && list[10] == 0x2001 && list[11] == 0x2002 && list[12] == 0x2003);
    assert(list[13] == 0x2004 && list[14] == 0x2005 && list[15] == 0x2006 && list[16] == 0x2007);
    assert(list[17] == 0x2008 && list[18] == 0x2009 && list[19] == 0x200a && list[20] == 0x2028);
    assert(list[21] == 0x2029 && list[22] == 0x202f && list[23] == 0x205f && list[24] == 0x3000);
}

/// The odd part of `d * 2^s` is `d`, and 2 divides it `s` times.
proof fn lemma_split(d: nat, s: nat)
    requires
        d % 2 == 1,
    ensures
        odd_part(d * pow2(s)) == d,
        twos(d * pow2(s)) == s,
    decreases s,
{
    vstd::arithmetic::power2::lemma2_to64();
    if s == 0 {
        assert(d * 1 == d);
    } else {
        let m = (s - 1) as nat;
        lemma_split(d, m);
        lemma_pow2_unfold(s);
        vstd::arithmetic::power2::lemma_pow2_pos(m);
        let (x, y) = (d * pow2(s), d * pow2(m));
        assert(x == 2 * y && y > 0) by (nonlinear_arith)
            requires
                x == d * pow2(s),
                y == d * pow2(m),
                pow2(s) == 2 * pow2(m),
                pow2(m) > 0,
                d > 0,
        ;
        assert(x / 2 == y && x % 2 == 0);
    }
}

/// With `n - 1 = d * 2^s`: `n` divides `a`, or `a^d` is 1 modulo `n`, or one of its first `s` repeated
/// squares is -1.
pub open spec fn behaves_like_prime(n: int, a: int, d: nat, s: nat) -> bool {
    ||| a % n == 0
    ||| pow(a, d) % n == 1
    ||| exists|r: nat| r < s && #[trigger] pow(a, d * pow2(r)) % n == n - 1
}

proof fn lemma_behaves(n: int, a: int, d: nat, s: nat)
    requires
        n > 1,
        d % 2 == 1,
        n - 1 == d * pow2(s),
    ensures
        strong_probable_prime(n, a) <==> behaves_like_prime(n, a, d, s),
{
    lemma_split(d, s);
    vstd::arithmetic::power2::lemma2_to64();
    assert(d * pow2(0) == d);
    assert(witness_power(n, a, 0) == pow(a, d) % n);
    assert forall|r: nat| #[trigger] witness_power(n, a, r) == pow(a, d * pow2(r)) % n by {}
    if exists|r: nat| r < s && #[trigger] pow(a, d * pow2(r)) % n == n - 1 {
        let r = choose|r: nat| r < s && #[trigger] pow(a, d * pow2(r)) % n == n - 1;
        assert(witness_power(n, a, r) == n - 1);
    }
    if exists|r: nat| r < s && #[trigger] witness_power(n, a, r) == n - 1 {
        let r = choose|r: nat| r < s && #[trigger] witness_power(n, a, r) == n - 1;
        assert(pow(a, d * pow2(r)) % n == n - 1);
    }
}

/// What the test asks of a number above 37: none of the first twelve primes divides it, and it behaves
/// like a prime for all seven bases. Of the numbers up to 37 it accepts the primes.
pub proof fn law_what_the_test_asks(n: u64, d: nat, s: nat)
    requires
        n >= 2,
        d % 2 == 1,
        n - 1 == d * pow2(s),
    ensures
        n > 37 ==> (passes_primality_test(n) <==> {
            &&& n % 2 != 0 && n % 3 != 0 && n % 5 != 0 && n % 7 != 0 && n % 11 != 0 && n % 13 != 0
            &&& n % 17 != 0 && n % 19 != 0 && n % 23 != 0 && n % 29 != 0 && n % 31 != 0 && n % 37 != 0
            &&& behaves_like_prime(n as int, 2, d, s)
            &&& behaves_like_prime(n as int, 325, d, s)
            &&& behaves_like_prime(n as int, 9375, d, s)
            &&& behaves_like_prime(n as int, 28178, d, s)
            &&& behaves_like_prime(n as int, 450775, d, s)
            &&& behaves_like_prime(n as int, 9780504, d, s)
            &&& behaves_like_prime(n as int, 1795265022, d, s)
        }),
{
    let m = n as int;
    lemma_behaves(m, 2, d, s);
    lemma_behaves(m, 325, d, s);
    lemma_behaves(m, 9375, d, s);
    lemma_behaves(m, 28178, d, s);
    lemma_behaves(m, 450775, d, s);
    lemma_behaves(m, 9780504, d, s);
    lemma_behaves(m, 1795265022, d, s);
    assert(SMALL_PRIMES[0] == 2 && SMALL_PRIMES[1] == 3 && SMALL_PRIMES[2] == 5);
    assert(SMALL_PRIMES[3] == 7 && SMALL_PRIMES[4] == 11 && SMALL_PRIMES[5] == 13);
    assert(SMALL_PRIMES[6] == 17 && SMALL_PRIMES[7] == 19 && SMALL_PRIMES[8] == 23);
    assert(SMALL_PRIMES[9] == 29 && SMALL_PRIMES[10] == 31 && SMALL_PRIMES[11] == 37);
    assert(BASES[0] == 2 && BASES[1] == 325 && BASES[2] == 9375 && BASES[3] == 28178);
    assert(BASES[4] == 450775 && BASES[5] == 9780504 && BASES[6] == 1795265022);
    if n > 37 {
        assert(!is_small_prime(n));
    }
}

} // verus!
