//! What a container says of its tables does not depend on its reserved bytes, nor on what follows the
//! last description.

use vstd::prelude::*;

use crate::pvor::reader::{number_at, parse_container, parse_meta, parse_metas};

verus! {

/// Where the name of the description at a place ends.
pub open spec fn name_end(b: Seq<u8>, at: int) -> int {
    at + 2 + number_at(b, at, 2)
}

/// Where `n` descriptions that begin at a place end.
pub open spec fn metas_end(b: Seq<u8>, at: int, n: nat) -> int
    decreases n,
{
    if n == 0 {
        at
    } else {
        metas_end(b, name_end(b, at) + 28, (n - 1) as nat)
    }
}

/// Byte `i` is a reserved byte of one of `n` descriptions that begin at a place, or lies behind them.
pub open spec fn is_spare(b: Seq<u8>, at: int, n: nat, i: int) -> bool
    decreases n,
{
    if n == 0 {
        i >= at
    } else {
        let m = name_end(b, at);
        m + 10 <= i < m + 12 || is_spare(b, m + 28, (n - 1) as nat, i)
    }
}

/// From a place on, two byte strings differ only in the reserved bytes of `n` descriptions and behind
/// them.
pub open spec fn agree_from(a: Seq<u8>, b: Seq<u8>, at: int, n: nat) -> bool {
    &&& forall|i: int|
        at <= i < a.len() && i < b.len() && !#[trigger] is_spare(a, at, n, i) ==> a[i] == b[i]
    &&& a.len() == b.len() || (metas_end(a, at, n) <= a.len() && metas_end(a, at, n) <= b.len())
}

/// Two byte strings differ only in reserved bytes, those of the fixed part and those of the
/// descriptions, and behind the last description.
pub open spec fn agree_but_reserved(a: Seq<u8>, b: Seq<u8>) -> bool {
    &&& forall|i: int| 0 <= i < 12 && i < a.len() && i < b.len() ==> #[trigger] a[i] == b[i]
    &&& agree_from(a, b, 16, number_at(a, 8, 4))
}

proof fn lemma_metas_end(b: Seq<u8>, at: int, n: nat)
    ensures
        metas_end(b, at, n) >= at,
    decreases n,
{
    if n > 0 {
        lemma_metas_end(b, name_end(b, at) + 28, (n - 1) as nat);
    }
}

proof fn lemma_spare_is_behind(b: Seq<u8>, at: int, n: nat, i: int)
    requires
        is_spare(b, at, n, i),
    ensures
        i >= at,
    decreases n,
{
    if n > 0 {
        let m = name_end(b, at);
        if !(m + 10 <= i < m + 12) {
            lemma_spare_is_behind(b, m + 28, (n - 1) as nat, i);
        }
    }
}

/// Numbers that are spelled by the same bytes are equal.
proof fn lemma_same_number(a: Seq<u8>, b: Seq<u8>, at: int, n: int)
    requires
        0 <= at,
        0 <= n,
        at + n <= a.len(),
        at + n <= b.len(),
        forall|i: int| at <= i < at + n ==> #[trigger] a[i] == b[i],
    ensures
        number_at(a, at, n) == number_at(b, at, n),
        a.subrange(at, at + n) == b.subrange(at, at + n),
{
    assert(a.subrange(at, at + n) =~= b.subrange(at, at + n));
}

/// The descriptions at a place are the same.
proof fn lemma_same_meta(a: Seq<u8>, b: Seq<u8>, at: int, n: nat)
    requires
        0 <= at,
        n > 0,
        agree_from(a, b, at, n),
    ensures
        parse_meta(a, at) == parse_meta(b, at),
        parse_meta(a, at) is Ok ==> parse_meta(a, at)->Ok_0.1 == name_end(a, at) + 28,
{
    let m = name_end(a, at);
    let rest = (n - 1) as nat;
    lemma_metas_end(a, m + 28, rest);
    assert forall|i: int|
        at <= i < m + 28 && !(m + 10 <= i < m + 12) && i < a.len() && i < b.len() implies a[i]
        == b[i] by {
        if is_spare(a, at, n, i) {
            lemma_spare_is_behind(a, m + 28, rest, i);
        }
    }
    if at + 2 <= a.len() && at + 2 <= b.len() {
        lemma_same_number(a, b, at, 2);
        if m <= a.len() && m <= b.len() {
            lemma_same_number(a, b, at + 2, m - at - 2);
            if m + 12 <= a.len() && m + 12 <= b.len() {
                lemma_same_number(a, b, m, 4);
                lemma_same_number(a, b, m + 4, 4);
                if m + 28 <= a.len() && m + 28 <= b.len() {
                    lemma_same_number(a, b, m + 12, 8);
                    lemma_same_number(a, b, m + 20, 8);
                }
            }
        }
    }
}

proof fn lemma_same_metas(a: Seq<u8>, b: Seq<u8>, at: int, n: nat)
    requires
        0 <= at,
        agree_from(a, b, at, n),
    ensures
        parse_metas(a, at, n) == parse_metas(b, at, n),
    decreases n,
{
    if n > 0 {
        lemma_same_meta(a, b, at, n);
        if parse_meta(a, at) is Ok {
            let next = name_end(a, at) + 28;
            let rest = (n - 1) as nat;
            assert forall|i: int|
                next <= i < a.len() && i < b.len() && !#[trigger] is_spare(
                    a,
                    next,
                    rest,
                    i,
                ) implies a[i] == b[i] by {
                assert(!is_spare(a, at, n, i));
            }
            lemma_same_metas(a, b, next, rest);
        }
    }
}

/// Reserved bytes, and what follows the last description, have no say in what a container describes:
/// opening byte strings that differ only there gives the same error, or the same descriptions.
pub proof fn law_reserved_bytes_are_ignored(a: Seq<u8>, b: Seq<u8>)
    requires
        agree_but_reserved(a, b),
    ensures
        parse_container(a) == parse_container(b),
{
    let n = number_at(a, 8, 4);
    lemma_metas_end(a, 16, n);
    if a.len() >= 4 && b.len() >= 4 {
        assert(a.take(4) =~= b.take(4));
        if a.len() >= 8 && b.len() >= 8 {
            lemma_same_number(a, b, 4, 4);
            if a.len() >= 16 && b.len() >= 16 {
                lemma_same_number(a, b, 8, 4);
                lemma_same_metas(a, b, 16, n);
            }
        }
    }
}

} // verus!
