//! Sizes of traces and oracles.

use vstd::arithmetic::div_mod::lemma_fundamental_div_mod;
use vstd::arithmetic::power2::{
    lemma2_to64, lemma_pow2_pos, lemma_pow2_strictly_increases, lemma_pow2_unfold, pow2,
};
use vstd::prelude::*;

use crate::text::str_eq;

verus! {

/// `n / d`, rounded up.
pub open spec fn ceil_div(n: nat, d: nat) -> nat {
    if d == 0 {
        0
    } else {
        ((n + d - 1) / d as int) as nat
    }
}

/// The least number of units of size `d` that hold `n`.
pub proof fn lemma_ceil_div_least(n: nat, d: nat)
    requires
        d > 0,
    ensures
        n <= ceil_div(n, d) * d,
        ceil_div(n, d) * d < n + d,
        ceil_div(n, d) <= n,
        forall|k: nat| #![trigger k * d] n <= k * d ==> ceil_div(n, d) <= k,
        forall|k: nat| #![trigger k * d] k < ceil_div(n, d) ==> k * d < n,
{
    let c = ceil_div(n, d);
    lemma_fundamental_div_mod(n + d - 1, d as int);
    assert(c * d <= n + d - 1 < c * d + d) by (nonlinear_arith)
        requires
            n + d - 1 == d as int * c as int + (n + d - 1) % (d as int),
            d > 0,
    ;
    assert(c <= n) by (nonlinear_arith)
        requires
            c * d <= n + d - 1,
            d > 0,
    ;
    assert forall|k: nat| #![trigger k * d] n <= k * d implies c <= k by {
        assert(c <= k) by (nonlinear_arith)
            requires
                n <= k * d,
                c * d < n + d,
                d > 0,
        ;
    }
    assert forall|k: nat| #![trigger k * d] k < c implies k * d < n by {
        assert(k * d < n) by (nonlinear_arith)
            requires
                k < c,
                c * d < n + d,
                d > 0,
        ;
    }
}

/// `n / d`, rounded up.
pub fn div_ceil(n: usize, d: usize) -> (r: usize)
    requires
        d > 0,
    ensures
        r == ceil_div(n as nat, d as nat),
{
    let q: usize = n / d;
    let rest: usize = n % d;
    proof {
        lemma_ceil_div_least(n as nat, d as nat);
        lemma_fundamental_div_mod(n as int, d as int);
        let c = ceil_div(n as nat, d as nat);
        let up: int = if rest > 0 { 1 } else { 0 };
        assert(c == q + up) by (nonlinear_arith)
            requires
                n == d as int * q as int + rest,
                0 <= rest < d,
                n <= c * d,
                c * d < n + d,
                up == (if rest > 0 { 1int } else { 0int }),
        ;
    }
    if rest > 0 {
        q + 1
    } else {
        q
    }
}

/// The least `k` with `n <= 2^k`.
pub open spec fn ceil_log2(n: nat) -> nat
    decreases n,
{
    if n <= 1 {
        0
    } else {
        1 + ceil_log2((n + 1) / 2)
    }
}

/// `2^k` reaches `n`, and no lower power does.
pub proof fn lemma_ceil_log2_least(n: nat)
    ensures
        n <= pow2(ceil_log2(n)),
        forall|k: nat| k < ceil_log2(n) ==> #[trigger] pow2(k) < n,
    decreases n,
{
    lemma2_to64();
    if n > 1 {
        let h = ((n + 1) / 2) as nat;
        lemma_ceil_log2_least(h);
        lemma_pow2_unfold(ceil_log2(n));
        assert forall|k: nat| k < ceil_log2(n) implies #[trigger] pow2(k) < n by {
            if k > 0 {
                lemma_pow2_unfold(k);
                assert(pow2((k - 1) as nat) < h);
            }
        }
    }
}

/// A power of 2 that reaches `n`, the lower half of which does not, is the least.
proof fn lemma_ceil_log2_unique(n: nat, k: nat)
    requires
        n <= pow2(k),
        k > 0 ==> pow2((k - 1) as nat) < n,
    ensures
        ceil_log2(n) == k,
{
    lemma_ceil_log2_least(n);
    let c = ceil_log2(n);
    if c < k {
        if c < k - 1 {
            lemma_pow2_strictly_increases(c, (k - 1) as nat);
        }
    }
}

/// The binary logarithm of `n`, rounded up: the height of a binary tree with `n` leaves.
pub fn merkle_height(n: usize) -> (r: usize)
    requires
        n <= usize::MAX / 2 + 1,
    ensures
        r == ceil_log2(n as nat),
{
    let mut k: usize = 0;
    let mut power: usize = 1;
    proof {
        lemma2_to64();
    }
    while power < n
        invariant
            power == pow2(k as nat),
            k > 0 ==> pow2((k - 1) as nat) < n,
            n <= usize::MAX / 2 + 1,
            k <= power,
        decreases usize::MAX - power,
    {
        proof {
            lemma_pow2_unfold((k + 1) as nat);
            lemma_pow2_pos(k as nat);
        }
        power = power * 2;
        k += 1;
    }
    proof {
        lemma_ceil_log2_unique(n as nat, k as nat);
    }
    k
}

/// The least power of 2 that is at least `n`.
pub fn next_pow2(n: usize) -> (r: usize)
    requires
        n <= usize::MAX / 2 + 1,
    ensures
        r == pow2(ceil_log2(n as nat)),
        r >= n,
{
    let mut power: usize = 1;
    let ghost mut k: nat = 0;
    proof {
        lemma2_to64();
    }
    while power < n
        invariant
            power == pow2(k),
            k > 0 ==> pow2((k - 1) as nat) < n,
            n <= usize::MAX / 2 + 1,
        decreases usize::MAX - power,
    {
        proof {
            lemma_pow2_unfold(k + 1);
            lemma_pow2_pos(k);
            k = k + 1;
        }
        power = power * 2;
    }
    proof {
        lemma_ceil_log2_unique(n as nat, k);
    }
    power
}

/// The size of the main trace of a chip.
#[derive(Clone, Copy, Debug, PartialEq, Eq, Structural)]
pub struct TraceSize {
    /// The rows that the events fill.
    pub raw_rows: usize,
    /// The rows after padding.
    pub rows: usize,
    /// The length in bytes, at 4 bytes for each value.
    pub bytes: usize,
}

/// The number of rows after padding to a power of 2.
pub open spec fn padded_rows(raw_rows: nat) -> nat {
    pow2(ceil_log2(raw_rows))
}

/// The length of a trace in bytes.
pub open spec fn trace_bytes(rows: nat, cols: nat) -> nat {
    rows * cols * 4
}

/// Estimates the main trace of a chip with a number of events, of which some fit in a row. There is
/// no estimate where a row holds no event, or the numbers are out of range.
pub fn estimate_trace(events: usize, entries_per_row: usize, cols: usize) -> (r: Option<TraceSize>)
    ensures
        ({
            let raw = ceil_div(events as nat, entries_per_row as nat);
            let rows = padded_rows(raw);
            match r {
                Some(s) => {
                    &&& entries_per_row > 0
                    &&& s.raw_rows == raw
                    &&& s.rows == rows
                    &&& s.bytes == trace_bytes(rows, cols as nat)
                },
                None => entries_per_row == 0 || rows > usize::MAX || rows * cols > usize::MAX
                    || trace_bytes(rows, cols as nat) > usize::MAX,
            }
        }),
{
    if entries_per_row == 0 {
        return None;
    }
    let raw_rows: usize = div_ceil(events, entries_per_row);
    if raw_rows > usize::MAX / 2 + 1 {
        proof {
            lemma_half_range(raw_rows);
        }
        return None;
    }
    let rows: usize = next_pow2(raw_rows);
    let cells: usize = match rows.checked_mul(cols) {
        Some(n) => n,
        None => {
            return None;
        },
    };
    let bytes: usize = match cells.checked_mul(4) {
        Some(n) => n,
        None => {
            return None;
        },
    };
    Some(TraceSize { raw_rows, rows, bytes })
}

/// A number in the upper half of the range has no power of 2 above it in the range.
proof fn lemma_half_range(n: usize)
    requires
        n > usize::MAX / 2 + 1,
    ensures
        padded_rows(n as nat) > usize::MAX,
{
    lemma_ceil_log2_least(n as nat);
    lemma2_to64();
    vstd::arithmetic::power2::lemma2_to64_rest();
    let c = ceil_log2(n as nat);
    if usize::BITS == 32 {
        assert(usize::MAX == 0xffff_ffff);
        if c < 32 {
            if c < 31 {
                lemma_pow2_strictly_increases(c, 31);
            }
        } else if c > 32 {
            lemma_pow2_strictly_increases(32, c);
        }
    } else {
        assert(usize::MAX == 0xffff_ffff_ffff_ffff);
        if c < 64 {
            if c < 63 {
                lemma_pow2_strictly_increases(c, 63);
            }
        } else if c > 64 {
            lemma_pow2_strictly_increases(64, c);
        }
    }
}

/// The size of a trace with a fixed number of rows, if it is in range.
pub fn fixed_trace(rows: usize, cols: usize) -> (r: Option<TraceSize>)
    ensures
        match r {
            Some(s) => {
                &&& s.raw_rows == rows
                &&& s.rows == rows
                &&& s.bytes == trace_bytes(rows as nat, cols as nat)
            },
            None => rows * cols > usize::MAX || trace_bytes(rows as nat, cols as nat) > usize::MAX,
        },
{
    let cells: usize = match rows.checked_mul(cols) {
        Some(n) => n,
        None => {
            return None;
        },
    };
    let bytes: usize = match cells.checked_mul(4) {
        Some(n) => n,
        None => {
            return None;
        },
    };
    Some(TraceSize { raw_rows: rows, rows, bytes })
}

/// The length of the first `n` traces together.
pub open spec fn sum_bytes(sizes: Seq<TraceSize>, n: nat) -> nat
    decreases n,
{
    if n == 0 {
        0
    } else {
        sum_bytes(sizes, (n - 1) as nat) + sizes[n - 1].bytes as nat
    }
}

proof fn lemma_sum_monotone(sizes: Seq<TraceSize>, i: nat, n: nat)
    requires
        i <= n,
    ensures
        sum_bytes(sizes, i) <= sum_bytes(sizes, n),
    decreases n - i,
{
    if i < n {
        lemma_sum_monotone(sizes, i, (n - 1) as nat);
    }
}

/// The length of traces together, if it is in range.
pub fn total_bytes(sizes: &[TraceSize]) -> (r: Option<usize>)
    ensures
        match r {
            Some(n) => n == sum_bytes(sizes@, sizes@.len()),
            None => sum_bytes(sizes@, sizes@.len()) > usize::MAX,
        },
{
    let mut total: usize = 0;
    let mut i: usize = 0;
    while i < sizes.len()
        invariant
            i <= sizes@.len(),
            total == sum_bytes(sizes@, i as nat),
        decreases sizes@.len() - i,
    {
        proof {
            lemma_sum_monotone(sizes@, (i + 1) as nat, sizes@.len());
        }
        total = match total.checked_add(sizes[i].bytes) {
            Some(n) => n,
            None => {
                return None;
            },
        };
        i += 1;
    }
    Some(total)
}

/// The number of values of the first `n` chips over their base domains; each chip is given by the
/// binary logarithm of its degree and its width.
pub open spec fn base_elements(chips: Seq<(usize, usize)>, n: nat) -> nat
    decreases n,
{
    if n == 0 {
        0
    } else {
        base_elements(chips, (n - 1) as nat) + pow2(chips[n - 1].0 as nat) * chips[n - 1].1 as nat
    }
}

proof fn lemma_elements_monotone(chips: Seq<(usize, usize)>, i: nat, n: nat)
    requires
        i <= n,
    ensures
        base_elements(chips, i) <= base_elements(chips, n),
    decreases n - i,
{
    if i < n {
        lemma_elements_monotone(chips, i, (n - 1) as nat);
        assert(pow2(chips[n - 1].0 as nat) * chips[n - 1].1 as nat >= 0) by (nonlinear_arith);
    }
}

/// `2^k`, if it is in range.
pub fn power_of_two(k: usize) -> (r: Option<u128>)
    ensures
        match r {
            Some(n) => k < 128 && n == pow2(k as nat),
            None => k >= 128,
        },
{
    if k >= 128 {
        return None;
    }
    let mut r: u128 = 1;
    let mut i: usize = 0;
    proof {
        lemma2_to64();
    }
    while i < k
        invariant
            i <= k < 128,
            r == pow2(i as nat),
        decreases k - i,
    {
        proof {
            lemma_pow2_unfold((i + 1) as nat);
            lemma_pow2_128();
            if i + 1 < 127 {
                lemma_pow2_strictly_increases((i + 1) as nat, 127);
            }
        }
        r = r * 2;
        i += 1;
    }
    Some(r)
}

proof fn lemma_pow2_128()
    ensures
        pow2(127) == 0x8000_0000_0000_0000_0000_0000_0000_0000,
{
    lemma2_to64();
    vstd::arithmetic::power2::lemma2_to64_rest();
    vstd::arithmetic::power2::lemma_pow2_adds(64, 63);
    assert(0x1_0000_0000_0000_0000 * 0x8000_0000_0000_0000
        == 0x8000_0000_0000_0000_0000_0000_0000_0000) by (nonlinear_arith);
}

/// The number of values of all chips over their base domains, if it is in range: a lower bound for
/// the main traces of a proof.
pub fn count_base_elements(chips: &[(usize, usize)]) -> (r: Option<u128>)
    ensures
        match r {
            Some(n) => n == base_elements(chips@, chips@.len()),
            None => base_elements(chips@, chips@.len()) > u128::MAX || exists|i: int|
                0 <= i < chips@.len() && (#[trigger] chips@[i]).0 >= 128,
        },
{
    let mut total: u128 = 0;
    let mut i: usize = 0;
    while i < chips.len()
        invariant
            i <= chips@.len(),
            total == base_elements(chips@, i as nat),
        decreases chips@.len() - i,
    {
        proof {
            lemma_elements_monotone(chips@, (i + 1) as nat, chips@.len());
        }
        let (log_degree, width) = chips[i];
        let n: u128 = match power_of_two(log_degree) {
            Some(n) => n,
            None => {
                assert(chips@[i as int].0 >= 128);
                return None;
            },
        };
        let cells: u128 = match n.checked_mul(width as u128) {
            Some(c) => c,
            None => {
                return None;
            },
        };
        total = match total.checked_add(cells) {
            Some(t) => t,
            None => {
                return None;
            },
        };
        i += 1;
    }
    Some(total)
}

/// The length of traces that are extended by a factor of `2^log_blowup`, if it is in range.
pub fn extended_bytes(base_bytes: u128, log_blowup: usize) -> (r: Option<u128>)
    ensures
        match r {
            Some(n) => n == base_bytes * pow2(log_blowup as nat),
            None => log_blowup >= 128 || base_bytes * pow2(log_blowup as nat) > u128::MAX,
        },
{
    match power_of_two(log_blowup) {
        Some(f) => base_bytes.checked_mul(f),
        None => None,
    }
}

/// The kinds of wrapper programs.
#[derive(Clone, Copy, Debug, PartialEq, Eq, Structural)]
pub enum ShapeKind {
    Compress,
    Shrink,
    Deferred,
    Recursion,
}

/// The name of a kind.
pub open spec fn kind_name(k: ShapeKind) -> Seq<char> {
    match k {
        ShapeKind::Compress => "compress"@,
        ShapeKind::Shrink => "shrink"@,
        ShapeKind::Deferred => "deferred"@,
        ShapeKind::Recursion => "recursion"@,
    }
}

/// The kind of that name.
pub fn parse_kind(name: &str) -> (r: Option<ShapeKind>)
    ensures
        match r {
            Some(k) => kind_name(k) == name@,
            None => forall|k: ShapeKind| #[trigger] kind_name(k) != name@,
        },
{
    if str_eq(name, "compress") {
        Some(ShapeKind::Compress)
    } else if str_eq(name, "shrink") {
        Some(ShapeKind::Shrink)
    } else if str_eq(name, "deferred") {
        Some(ShapeKind::Deferred)
    } else if str_eq(name, "recursion") {
        Some(ShapeKind::Recursion)
    } else {
        None
    }
}

/// The place of the last shape of that kind.
pub fn last_of_kind(kinds: &[ShapeKind], wanted: ShapeKind) -> (r: Option<usize>)
    ensures
        match r {
            Some(i) => {
                &&& i < kinds@.len()
                &&& kinds@[i as int] == wanted
                &&& forall|j: int| i < j < kinds@.len() ==> #[trigger] kinds@[j] != wanted
            },
            None => forall|j: int| 0 <= j < kinds@.len() ==> #[trigger] kinds@[j] != wanted,
        },
{
    let mut i: usize = kinds.len();
    while i > 0
        invariant
            i <= kinds@.len(),
            forall|j: int| i <= j < kinds@.len() ==> #[trigger] kinds@[j] != wanted,
        decreases i,
    {
        if kinds[i - 1] == wanted {
            return Some(i - 1);
        }
        i -= 1;
    }
    None
}

} // verus!
