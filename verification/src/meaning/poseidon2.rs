//! The `Poseidon2WideDeg3` rows record a Poseidon2 permutation.

use vstd::arithmetic::div_mod::{
    lemma_mod_bound, lemma_mod_multiples_vanish, lemma_mul_mod_noop, lemma_mul_mod_noop_left,
    lemma_mul_mod_noop_right,
};
use vstd::arithmetic::power::{lemma_pow1, lemma_pow_adds, pow};
use vstd::arithmetic::power2::lemma2_to64;
use vstd::prelude::*;

use crate::babybear::{f_add, f_mul, BABYBEAR_P};
use crate::chips::lanes;
use crate::chips::poseidon2::{
    block_product, constants_wf, cube, external_inputs, external_layer, external_result, external_round,
    external_round_index, external_target, internal_diagonal, internal_input, internal_layer,
    internal_round, internal_state, joint, plain_sum, poseidon2_residuals, seventh, MONTY_INVERSE,
};

verus! {

/// The seventh power of a state element and its round constant.
pub open spec fn sbox(x: u32, c: u32) -> u32 {
    (pow(x + c, 7) % (BABYBEAR_P as int)) as u32
}

/// The third power of a state element and its round constant.
pub open spec fn cubed(x: u32, c: u32) -> u32 {
    (pow(x + c, 3) % (BABYBEAR_P as int)) as u32
}

/// The state before round `k` of the permutation of an input: after a linear layer come four full
/// rounds, thirteen partial rounds, which put only the first element through the S-box, and four full
/// rounds. The state before round 21 is the output.
pub open spec fn state_before(input: Seq<u32>, rc: Seq<Seq<u32>>, k: nat) -> Seq<u32>
    decreases k,
{
    if k == 0 {
        external_layer(input)
    } else {
        let s = state_before(input, rc, (k - 1) as nat);
        let c = rc[k - 1];
        if 4 <= k - 1 < 17 {
            internal_layer(s.update(0, sbox(s[0], c[0])))
        } else {
            external_layer(Seq::new(16, |i: int| sbox(s[i], c[i])))
        }
    }
}

/// The number of the full round that the block of columns `r` records.
pub open spec fn full_round(r: int) -> nat {
    if r < 4 {
        r as nat
    } else {
        (r + 13) as nat
    }
}

/// A row records the permutation of its first 16 values: the states before the full rounds, the state
/// before the partial rounds and the first element after each of them, the output, and the third powers.
pub open spec fn records_permutation(row: Seq<u32>, rc: Seq<Seq<u32>>) -> bool {
    let input = row.subrange(0, 16);
    &&& forall|r: int|
        1 <= r < 8 ==> #[trigger] row.subrange(16 * r, 16 * r + 16) == state_before(
            input,
            rc,
            full_round(r),
        )
    &&& row.subrange(128, 144) == state_before(input, rc, 4)
    &&& forall|r: int|
        0 <= r < 12 ==> #[trigger] row[144 + r] == state_before(input, rc, (r + 5) as nat)[0]
    &&& row.subrange(156, 172) == state_before(input, rc, 21)
    &&& forall|r: int, i: int|
        0 <= r < 8 && 0 <= i < 16 ==> #[trigger] row[172 + 16 * r + i] == cubed(
            state_before(input, rc, full_round(r))[i],
            rc[full_round(r) as int][i],
        )
    &&& forall|r: int|
        0 <= r < 13 ==> #[trigger] row[300 + r] == cubed(
            state_before(input, rc, (r + 4) as nat)[0],
            rc[r + 4][0],
        )
}

proof fn lemma_powers(x: u32, c: u32)
    ensures
        cube(f_add(x, c)) == cubed(x, c),
        seventh(f_add(x, c)) == sbox(x, c),
{
    let p = BABYBEAR_P as int;
    let y = x + c;
    let a = f_add(x, c);
    lemma_mod_bound(y, p);
    assert(a as int == y % p);
    lemma_pow1(y);
    lemma_pow_adds(y, 1, 1);
    lemma_pow_adds(y, 2, 1);
    lemma_pow_adds(y, 3, 3);
    lemma_pow_adds(y, 6, 1);
    lemma_mod_bound(pow(y, 2), p);
    lemma_mod_bound(pow(y, 3), p);
    lemma_mod_bound(pow(y, 6), p);
    lemma_mod_bound(pow(y, 7), p);
    lemma_mul_mod_noop(pow(y, 1), pow(y, 1), p);
    assert(f_mul(a, a) == pow(y, 2) % p);
    lemma_mul_mod_noop(pow(y, 2), pow(y, 1), p);
    assert(cube(a) == pow(y, 3) % p);
    lemma_mul_mod_noop(pow(y, 3), pow(y, 3), p);
    assert(f_mul(cube(a), cube(a)) == pow(y, 6) % p);
    lemma_mul_mod_noop(pow(y, 6), pow(y, 1), p);
}

proof fn lemma_state_len(input: Seq<u32>, rc: Seq<Seq<u32>>, k: nat)
    ensures
        state_before(input, rc, k).len() == 16,
{
}

/// Lanes are all zero exactly where each of them is.
proof fn lemma_zero_lanes(f: spec_fn(int) -> Seq<u32>, n: nat)
    ensures
        (forall|j: int| 0 <= j < lanes(f, n).len() ==> #[trigger] lanes(f, n)[j] == 0) <==> (forall|
            i: int,
            k: int,
        |
            0 <= i < n && 0 <= k < f(i).len() ==> #[trigger] f(i)[k] == 0),
    decreases n,
{
    if n > 0 {
        let m = (n - 1) as nat;
        lemma_zero_lanes(f, m);
        let (a, b) = (lanes(f, m), f(n - 1));
        let all = lanes(f, n);
        assert(all == a + b);
        if forall|j: int| 0 <= j < all.len() ==> #[trigger] all[j] == 0 {
            assert forall|j: int| 0 <= j < a.len() implies #[trigger] a[j] == 0 by {
                assert(all[j] == a[j]);
            }
            assert forall|i: int, k: int| 0 <= i < n && 0 <= k < f(i).len() implies #[trigger] f(
                i,
            )[k] == 0 by {
                if i == n - 1 {
                    assert(all[a.len() + k] == b[k]);
                }
            }
        }
        if forall|i: int, k: int| 0 <= i < n && 0 <= k < f(i).len() ==> #[trigger] f(i)[k] == 0 {
            assert forall|j: int| 0 <= j < all.len() implies #[trigger] all[j] == 0 by {
                if j < a.len() {
                    assert(all[j] == a[j]);
                } else {
                    assert(all[j] == f(n - 1)[j - a.len()]);
                }
            }
        }
    }
}

/// What a full round computes, where the state before it is recorded.
proof fn lemma_full_values(row: Seq<u32>, rc: Seq<Seq<u32>>, r: int)
    requires
        row.len() == 313,
        constants_wf(rc),
        0 <= r < 8,
        r > 0 ==> row.subrange(16 * r, 16 * r + 16) == state_before(
            row.subrange(0, 16),
            rc,
            full_round(r),
        ),
    ensures
        ({
            let input = row.subrange(0, 16);
            let s = state_before(input, rc, full_round(r));
            &&& external_inputs(row, rc, r).len() == 16
            &&& forall|i: int|
                0 <= i < 16 ==> cube(#[trigger] external_inputs(row, rc, r)[i]) == cubed(
                    s[i],
                    rc[full_round(r) as int][i],
                )
            &&& external_result(row, rc, r) == state_before(input, rc, full_round(r) + 1)
        }),
{
    let input = row.subrange(0, 16);
    let k0 = full_round(r);
    let s = state_before(input, rc, k0);
    let c = rc[k0 as int];
    let a = external_inputs(row, rc, r);
    let recorded = row.subrange(16 * r, 16 * r + 16);
    assert(external_round_index(r) == k0);
    assert(r == 0 ==> recorded =~= input);
    assert(a =~= Seq::new(16, |i: int| f_add(s[i], c[i])));
    assert forall|i: int| 0 <= i < 16 implies cube(#[trigger] a[i]) == cubed(s[i], c[i]) && seventh(
        a[i],
    ) == sbox(s[i], c[i]) by {
        lemma_powers(s[i], c[i]);
    }
    assert(Seq::new(16, |i: int| seventh(a[i])) =~= Seq::new(16, |i: int| sbox(s[i], c[i])));
    assert(!(4 <= k0 < 17));
    assert(rc[(k0 + 1) - 1] == c);
}

/// The residuals of a full round, where the state before it is recorded: they are zero exactly where its
/// third powers and the state after it are recorded.
proof fn lemma_full(row: Seq<u32>, rc: Seq<Seq<u32>>, r: int)
    requires
        row.len() == 313,
        constants_wf(rc),
        0 <= r < 8,
        r > 0 ==> row.subrange(16 * r, 16 * r + 16) == state_before(
            row.subrange(0, 16),
            rc,
            full_round(r),
        ),
    ensures
        ({
            let input = row.subrange(0, 16);
            let s = state_before(input, rc, full_round(r));
            let at = external_target(r);
            (forall|k: int|
                0 <= k < external_round(row, rc, r).len() ==> #[trigger] external_round(row, rc, r)[k]
                    == 0) <==> {
                &&& forall|i: int|
                    0 <= i < 16 ==> #[trigger] row[172 + 16 * r + i] == cubed(
                        s[i],
                        rc[full_round(r) as int][i],
                    )
                &&& row.subrange(at, at + 16) == state_before(input, rc, full_round(r) + 1)
            }
        }),
{
    let input = row.subrange(0, 16);
    let k0 = full_round(r);
    let s = state_before(input, rc, k0);
    let c = rc[k0 as int];
    let at = external_target(r);
    let a = external_inputs(row, rc, r);
    let after = state_before(input, rc, k0 + 1);
    lemma_full_values(row, rc, r);
    lemma_state_len(input, rc, k0 + 1);
    lemma_full_residuals(row, rc, r, Seq::new(16, |i: int| cubed(s[i], c[i])), after);
}

/// The residuals of a full round compare what it computes with what is recorded.
proof fn lemma_full_residuals(
    row: Seq<u32>,
    rc: Seq<Seq<u32>>,
    r: int,
    cubes: Seq<u32>,
    after: Seq<u32>,
)
    requires
        row.len() == 313,
        0 <= r < 8,
        cubes.len() == 16,
        after.len() == 16,
        external_inputs(row, rc, r).len() == 16,
        forall|i: int| 0 <= i < 16 ==> cube(#[trigger] external_inputs(row, rc, r)[i]) == cubes[i],
        external_result(row, rc, r) == after,
    ensures
        (forall|k: int|
            0 <= k < external_round(row, rc, r).len() ==> #[trigger] external_round(row, rc, r)[k]
                == 0) <==> {
            &&& forall|i: int| 0 <= i < 16 ==> #[trigger] row[172 + 16 * r + i] == cubes[i]
            &&& row.subrange(external_target(r), external_target(r) + 16) == after
        },
{
    let at = external_target(r);
    let a = external_inputs(row, rc, r);
    let res = external_round(row, rc, r);
    assert(res.len() == 32);
    if forall|k: int| 0 <= k < res.len() ==> #[trigger] res[k] == 0 {
        assert forall|i: int| 0 <= i < 16 implies #[trigger] row[172 + 16 * r + i] == cubes[i] by {
            assert(res[i] == 0);
            assert(cube(a[i]) == cubes[i]);
        }
        assert forall|i: int| 0 <= i < 16 implies row.subrange(at, at + 16)[i] == after[i] by {
            assert(res[16 + i] == 0);
        }
        assert(row.subrange(at, at + 16) =~= after);
    }
    if (forall|i: int| 0 <= i < 16 ==> #[trigger] row[172 + 16 * r + i] == cubes[i]) && row.subrange(
        at,
        at + 16,
    ) == after {
        assert forall|k: int| 0 <= k < res.len() implies #[trigger] res[k] == 0 by {
            if k < 16 {
                assert(row[172 + 16 * r + k] == cubes[k]);
                assert(cube(a[k]) == cubes[k]);
            } else {
                assert(row.subrange(at, at + 16)[k - 16] == row[at + (k - 16)]);
            }
        }
    }
}

/// The state after `r` partial rounds, where the first elements before it are recorded.
proof fn lemma_partial_state(row: Seq<u32>, rc: Seq<Seq<u32>>, r: nat)
    requires
        row.len() == 313,
        constants_wf(rc),
        r <= 13,
        row.subrange(128, 144) == state_before(row.subrange(0, 16), rc, 4),
        forall|j: int|
            0 <= j < r - 1 ==> #[trigger] row[144 + j] == state_before(
                row.subrange(0, 16),
                rc,
                (j + 5) as nat,
            )[0],
    ensures
        internal_state(row, rc, r) == state_before(row.subrange(0, 16), rc, r + 4),
    decreases r,
{
    let input = row.subrange(0, 16);
    if r > 0 {
        let m = (r - 1) as nat;
        lemma_partial_state(row, rc, m);
        let s = state_before(input, rc, m + 4);
        assert(internal_state(row, rc, m) == s);
        lemma_partial_input(row, rc, m as int);
        lemma_powers(s[0], rc[m as int + 4][0]);
        assert(internal_state(row, rc, r) == internal_layer(
            s.update(0, seventh(internal_input(row, rc, m as int))),
        ));
        assert(rc[(r + 4) - 1] == rc[m as int + 4]);
    }
}

/// The S-box input of a partial round.
proof fn lemma_partial_input(row: Seq<u32>, rc: Seq<Seq<u32>>, r: int)
    requires
        row.len() == 313,
        constants_wf(rc),
        0 <= r < 13,
        row.subrange(128, 144) == state_before(row.subrange(0, 16), rc, 4),
        r > 0 ==> row[144 + (r - 1)] == state_before(row.subrange(0, 16), rc, (r + 4) as nat)[0],
    ensures
        internal_input(row, rc, r) == f_add(
            state_before(row.subrange(0, 16), rc, (r + 4) as nat)[0],
            rc[r + 4][0],
        ),
{
    assert(row.subrange(128, 144)[0] == row[128]);
}

/// The residuals of the partial rounds up to number `n`, where the state before them is recorded.
proof fn lemma_partial(row: Seq<u32>, rc: Seq<Seq<u32>>, r: int)
    requires
        row.len() == 313,
        constants_wf(rc),
        0 <= r < 13,
        row.subrange(128, 144) == state_before(row.subrange(0, 16), rc, 4),
        forall|j: int|
            0 <= j < r ==> #[trigger] row[144 + j] == state_before(
                row.subrange(0, 16),
                rc,
                (j + 5) as nat,
            )[0],
    ensures
        ({
            let input = row.subrange(0, 16);
            let res = internal_round(row, rc, r);
            (forall|k: int| 0 <= k < res.len() ==> #[trigger] res[k] == 0) <==> {
                &&& row[300 + r] == cubed(state_before(input, rc, (r + 4) as nat)[0], rc[r + 4][0])
                &&& r < 12 ==> row[144 + r] == state_before(input, rc, (r + 5) as nat)[0]
            }
        }),
{
    let input = row.subrange(0, 16);
    let s = state_before(input, rc, (r + 4) as nat);
    let res = internal_round(row, rc, r);
    if r > 0 {
        assert(row[144 + (r - 1)] == state_before(input, rc, (r - 1 + 5) as nat)[0]);
    }
    lemma_partial_input(row, rc, r);
    lemma_powers(s[0], rc[r + 4][0]);
    lemma_partial_state(row, rc, (r + 1) as nat);
    if forall|k: int| 0 <= k < res.len() ==> #[trigger] res[k] == 0 {
        assert(res[0] == 0);
        if r < 12 {
            assert(res[1] == 0);
        }
    }
}

/// The three parts of the residuals of a row are zero.
spec fn parts_zero(row: Seq<u32>, rc: Seq<Seq<u32>>) -> bool {
    &&& forall|r: int, k: int|
        0 <= r < 8 && 0 <= k < external_round(row, rc, r).len() ==> #[trigger] external_round(
            row,
            rc,
            r,
        )[k] == 0
    &&& forall|r: int, k: int|
        0 <= r < 13 && 0 <= k < internal_round(row, rc, r).len() ==> #[trigger] internal_round(
            row,
            rc,
            r,
        )[k] == 0
    &&& forall|k: int| 0 <= k < 16 ==> #[trigger] joint(row, rc)[k] == 0
}

proof fn lemma_parts(row: Seq<u32>, rc: Seq<Seq<u32>>)
    ensures
        (forall|j: int|
            0 <= j < poseidon2_residuals(row, rc).len() ==> #[trigger] poseidon2_residuals(row, rc)[j]
                == 0) <==> parts_zero(row, rc),
{
    let f = |r: int| external_round(row, rc, r);
    let g = |r: int| internal_round(row, rc, r);
    let (a, b, c) = (lanes(f, 8), lanes(g, 13), joint(row, rc));
    let all = poseidon2_residuals(row, rc);
    assert(all == a + b + c);
    lemma_zero_lanes(f, 8);
    lemma_zero_lanes(g, 13);
    if forall|j: int| 0 <= j < all.len() ==> #[trigger] all[j] == 0 {
        assert forall|j: int| 0 <= j < a.len() implies #[trigger] a[j] == 0 by {
            assert(all[j] == a[j]);
        }
        assert forall|j: int| 0 <= j < b.len() implies #[trigger] b[j] == 0 by {
            assert(all[a.len() + j] == b[j]);
        }
        assert forall|r: int, k: int|
            0 <= r < 8 && 0 <= k < external_round(row, rc, r).len() implies #[trigger] external_round(
            row,
            rc,
            r,
        )[k] == 0 by {
            assert(f(r)[k] == 0);
        }
        assert forall|r: int, k: int|
            0 <= r < 13 && 0 <= k < internal_round(row, rc, r).len() implies #[trigger] internal_round(
            row,
            rc,
            r,
        )[k] == 0 by {
            assert(g(r)[k] == 0);
        }
        assert forall|k: int| 0 <= k < 16 implies #[trigger] c[k] == 0 by {
            assert(all[a.len() + b.len() + k] == c[k]);
        }
    }
    if parts_zero(row, rc) {
        assert forall|i: int, k: int| 0 <= i < 8 && 0 <= k < f(i).len() implies #[trigger] f(i)[k]
            == 0 by {
            assert(external_round(row, rc, i)[k] == 0);
        }
        assert forall|i: int, k: int| 0 <= i < 13 && 0 <= k < g(i).len() implies #[trigger] g(i)[k]
            == 0 by {
            assert(internal_round(row, rc, i)[k] == 0);
        }
        assert forall|j: int| 0 <= j < all.len() implies #[trigger] all[j] == 0 by {
            if j < a.len() {
                assert(all[j] == a[j]);
            } else if j < a.len() + b.len() {
                assert(all[j] == b[j - a.len()]);
            } else {
                assert(all[j] == c[j - a.len() - b.len()]);
            }
        }
    }
}

/// From zero residuals to a recorded permutation.
proof fn lemma_sound(row: Seq<u32>, rc: Seq<Seq<u32>>)
    requires
        row.len() == 313,
        constants_wf(rc),
        parts_zero(row, rc),
    ensures
        records_permutation(row, rc),
{
    let input = row.subrange(0, 16);
    lemma_full(row, rc, 0);
    lemma_full(row, rc, 1);
    lemma_full(row, rc, 2);
    lemma_full(row, rc, 3);
    assert(row.subrange(128, 144) == state_before(input, rc, 4));
    lemma_first_elements(row, rc, 12);
    lemma_partial_state(row, rc, 13);
    let s = state_before(input, rc, 17);
    assert forall|i: int| 0 <= i < 16 implies row.subrange(64, 80)[i] == s[i] by {
        assert(joint(row, rc)[i] == 0);
    }
    assert(row.subrange(64, 80) =~= s);
    lemma_full(row, rc, 4);
    lemma_full(row, rc, 5);
    lemma_full(row, rc, 6);
    lemma_full(row, rc, 7);
    assert forall|r: int| 1 <= r < 8 implies #[trigger] row.subrange(16 * r, 16 * r + 16)
        == state_before(input, rc, full_round(r)) by {
        assert(r == 1 || r == 2 || r == 3 || r == 4 || r == 5 || r == 6 || r == 7);
    }
    assert forall|r: int, i: int| 0 <= r < 8 && 0 <= i < 16 implies #[trigger] row[172 + 16 * r + i]
        == cubed(state_before(input, rc, full_round(r))[i], rc[full_round(r) as int][i]) by {
        lemma_full(row, rc, r);
    }
    assert forall|r: int| 0 <= r < 13 implies #[trigger] row[300 + r] == cubed(
        state_before(input, rc, (r + 4) as nat)[0],
        rc[r + 4][0],
    ) by {
        lemma_partial(row, rc, r);
    }
}

/// The first elements after the partial rounds.
proof fn lemma_first_elements(row: Seq<u32>, rc: Seq<Seq<u32>>, n: int)
    requires
        row.len() == 313,
        constants_wf(rc),
        parts_zero(row, rc),
        row.subrange(128, 144) == state_before(row.subrange(0, 16), rc, 4),
        0 <= n <= 12,
    ensures
        forall|j: int|
            0 <= j < n ==> #[trigger] row[144 + j] == state_before(
                row.subrange(0, 16),
                rc,
                (j + 5) as nat,
            )[0],
    decreases n,
{
    if n > 0 {
        lemma_first_elements(row, rc, n - 1);
        lemma_partial(row, rc, n - 1);
        assert forall|k: int| 0 <= k < internal_round(row, rc, n - 1).len() implies #[trigger]
            internal_round(row, rc, n - 1)[k] == 0 by {}
    }
}

/// From a recorded permutation to zero residuals.
proof fn lemma_complete(row: Seq<u32>, rc: Seq<Seq<u32>>)
    requires
        row.len() == 313,
        constants_wf(rc),
        records_permutation(row, rc),
    ensures
        parts_zero(row, rc),
{
    let input = row.subrange(0, 16);
    assert forall|r: int, k: int|
        0 <= r < 8 && 0 <= k < external_round(row, rc, r).len() implies #[trigger] external_round(
        row,
        rc,
        r,
    )[k] == 0 by {
        assert(row.subrange(16 * 1int, 16 * 1int + 16) == state_before(input, rc, 1));
        assert(row.subrange(16 * 2int, 16 * 2int + 16) == state_before(input, rc, 2));
        assert(row.subrange(16 * 3int, 16 * 3int + 16) == state_before(input, rc, 3));
        assert(row.subrange(16 * 5int, 16 * 5int + 16) == state_before(input, rc, 18));
        assert(row.subrange(16 * 6int, 16 * 6int + 16) == state_before(input, rc, 19));
        assert(row.subrange(16 * 7int, 16 * 7int + 16) == state_before(input, rc, 20));
        if r > 0 {
            assert(row.subrange(16 * r, 16 * r + 16) == state_before(input, rc, full_round(r)));
        }
        assert(r == 0 || r == 1 || r == 2 || r == 3 || r == 4 || r == 5 || r == 6 || r == 7);
        lemma_full(row, rc, r);
    }
    assert forall|r: int, k: int|
        0 <= r < 13 && 0 <= k < internal_round(row, rc, r).len() implies #[trigger] internal_round(
        row,
        rc,
        r,
    )[k] == 0 by {
        lemma_partial(row, rc, r);
        if r < 12 {
            assert(row[144 + r] == state_before(input, rc, (r + 5) as nat)[0]);
        }
        assert(row[300 + r] == cubed(state_before(input, rc, (r + 4) as nat)[0], rc[r + 4][0]));
    }
    lemma_partial_state(row, rc, 13);
    assert(row.subrange(16 * 4int, 16 * 4int + 16) == state_before(input, rc, 17));
    assert forall|k: int| 0 <= k < 16 implies #[trigger] joint(row, rc)[k] == 0 by {
        assert(row.subrange(64, 80)[k] == row[64 + k]);
    }
}

/// A row leaves only zero residuals exactly where it records the Poseidon2 permutation of its first 16
/// values, each state and each third power at its place. In particular its output is that permutation.
pub proof fn law_row_records_permutation(row: Seq<u32>, rc: Seq<Seq<u32>>)
    requires
        row.len() == 313,
        constants_wf(rc),
    ensures
        (forall|j: int|
            0 <= j < poseidon2_residuals(row, rc).len() ==> #[trigger] poseidon2_residuals(row, rc)[j]
                == 0) <==> records_permutation(row, rc),
{
    lemma_parts(row, rc);
    if parts_zero(row, rc) {
        lemma_sound(row, rc);
    }
    if records_permutation(row, rc) {
        lemma_complete(row, rc);
    }
}

/// Lanes of `w` residuals stand side by side.
proof fn lemma_lane_places(f: spec_fn(int) -> Seq<u32>, n: nat, w: nat, l: int, k: int)
    requires
        forall|i: int| 0 <= i < n ==> (#[trigger] f(i)).len() == w,
        0 <= l < n,
        0 <= k < w,
    ensures
        lanes(f, n).len() == n * w,
        0 <= l * w + k < n * w,
        lanes(f, n)[l * w + k] == f(l)[k],
    decreases n,
{
    let m = (n - 1) as nat;
    lemma_lane_count(f, m, w);
    assert(f(n - 1).len() == w);
    assert(n * w == m * w + w) by (nonlinear_arith)
        requires
            n == m + 1,
    ;
    if l < m {
        lemma_lane_places(f, m, w, l, k);
    } else {
        assert(0 <= m * w) by (nonlinear_arith);
    }
}

proof fn lemma_lane_count(f: spec_fn(int) -> Seq<u32>, n: nat, w: nat)
    requires
        forall|i: int| 0 <= i < n ==> (#[trigger] f(i)).len() == w,
    ensures
        lanes(f, n).len() == n * w,
    decreases n,
{
    if n > 0 {
        lemma_lane_count(f, (n - 1) as nat, w);
        assert(f(n - 1).len() == w);
        assert(n * w == (n - 1) * w + w) by (nonlinear_arith);
    } else {
        assert(0 * w == 0);
    }
}

/// The state element that goes into full round `r` of a row at place `i`: what is recorded, and before
/// the first round what the linear layer makes of it.
pub open spec fn recorded_state(row: Seq<u32>, r: int, i: int) -> u32 {
    if r == 0 {
        external_layer(row.subrange(0, 16))[i]
    } else {
        row[16 * r + i]
    }
}

/// Where the residuals of the full rounds stand in a row, and what each says: residual `32 r + i` that the
/// third power of element `i` before round `r` is recorded, and residual `32 r + 16 + i` that element `i`
/// after it is recorded, where the next round, the partial rounds or the output begin.
pub proof fn law_full_round_places(row: Seq<u32>, rc: Seq<Seq<u32>>, r: int, i: int)
    requires
        row.len() == 313,
        constants_wf(rc),
        0 <= r < 8,
        0 <= i < 16,
    ensures
        ({
            let res = poseidon2_residuals(row, rc);
            let c = rc[full_round(r) as int];
            let to = if r == 3 {
                128
            } else if r == 7 {
                156
            } else {
                16 * (r + 1)
            };
            let powers = Seq::new(16, |j: int| sbox(recorded_state(row, r, j), c[j]));
            &&& res.len() == 297
            &&& res[32 * r + i] == 0 <==> row[172 + 16 * r + i] == cubed(
                recorded_state(row, r, i),
                c[i],
            )
            &&& res[32 * r + 16 + i] == 0 <==> row[to + i] == external_layer(powers)[i]
        }),
{
    let f = |k: int| external_round(row, rc, k);
    let g = |k: int| internal_round(row, rc, k);
    assert forall|k: int| 0 <= k < 8 implies (#[trigger] f(k)).len() == 32 by {}
    assert forall|k: int| 0 <= k < 12 implies (#[trigger] g(k)).len() == 2 by {}
    lemma_lane_places(f, 8, 32, r, i);
    lemma_lane_places(f, 8, 32, r, 16 + i);
    lemma_lane_count(g, 12, 2);
    assert(lanes(g, 13) == lanes(g, 12) + g(12));
    assert(g(12).len() == 1);
    let res = poseidon2_residuals(row, rc);
    assert(res == lanes(f, 8) + lanes(g, 13) + joint(row, rc));
    assert(res[32 * r + i] == external_round(row, rc, r)[i]);
    assert(res[32 * r + 16 + i] == external_round(row, rc, r)[16 + i]);
    lemma_recorded_inputs(row, rc, r);
}

/// What a full round computes from what is recorded.
proof fn lemma_recorded_inputs(row: Seq<u32>, rc: Seq<Seq<u32>>, r: int)
    requires
        row.len() == 313,
        constants_wf(rc),
        0 <= r < 8,
    ensures
        ({
            let c = rc[full_round(r) as int];
            let powers = Seq::new(16, |j: int| sbox(recorded_state(row, r, j), c[j]));
            &&& external_inputs(row, rc, r).len() == 16
            &&& forall|j: int|
                0 <= j < 16 ==> cube(#[trigger] external_inputs(row, rc, r)[j]) == cubed(
                    recorded_state(row, r, j),
                    c[j],
                )
            &&& external_result(row, rc, r) == external_layer(powers)
        }),
{
    let c = rc[full_round(r) as int];
    let a = external_inputs(row, rc, r);
    let powers = Seq::new(16, |j: int| sbox(recorded_state(row, r, j), c[j]));
    let recorded = row.subrange(16 * r, 16 * r + 16);
    assert(r == 0 ==> recorded =~= row.subrange(0, 16));
    assert(external_round_index(r) == full_round(r));
    assert(a =~= Seq::new(16, |j: int| f_add(recorded_state(row, r, j), c[j])));
    assert forall|j: int| 0 <= j < 16 implies cube(#[trigger] a[j]) == cubed(
        recorded_state(row, r, j),
        c[j],
    ) && seventh(a[j]) == sbox(recorded_state(row, r, j), c[j]) by {
        lemma_powers(recorded_state(row, r, j), c[j]);
    }
    assert(Seq::new(16, |j: int| seventh(a[j])) =~= powers);
}

/// The first element before partial round `r`, as it is recorded.
pub open spec fn recorded_first(row: Seq<u32>, r: int) -> u32 {
    if r == 0 {
        row[128]
    } else {
        row[143 + r]
    }
}

/// The state after the first `r` partial rounds, from the state that is recorded before them and the
/// first elements that are recorded between them.
pub open spec fn partial_state(row: Seq<u32>, rc: Seq<Seq<u32>>, r: nat) -> Seq<u32>
    decreases r,
{
    if r == 0 {
        row.subrange(128, 144)
    } else {
        internal_layer(
            partial_state(row, rc, (r - 1) as nat).update(
                0,
                sbox(recorded_first(row, r - 1), rc[r as int + 3][0]),
            ),
        )
    }
}

proof fn lemma_partial_recorded(row: Seq<u32>, rc: Seq<Seq<u32>>, r: nat)
    requires
        row.len() == 313,
        constants_wf(rc),
        r <= 13,
    ensures
        partial_state(row, rc, r) == internal_state(row, rc, r),
    decreases r,
{
    if r > 0 {
        lemma_partial_recorded(row, rc, (r - 1) as nat);
        lemma_powers(recorded_first(row, r - 1), rc[r as int + 3][0]);
    }
}

/// Where the residuals of the partial rounds stand, and what each says: residual `256 + 2 r` that the third
/// power of the first element before partial round `r` is recorded, the one behind it that the first
/// element after it is, and the last sixteen that the state after all of them is where the fifth full
/// round begins.
pub proof fn law_partial_round_places(row: Seq<u32>, rc: Seq<Seq<u32>>, r: int, i: int)
    requires
        row.len() == 313,
        constants_wf(rc),
        0 <= r < 13,
        0 <= i < 16,
    ensures
        ({
            let res = poseidon2_residuals(row, rc);
            &&& res.len() == 297
            &&& res[256 + 2 * r] == 0 <==> row[300 + r] == cubed(
                recorded_first(row, r),
                rc[r + 4][0],
            )
            &&& r < 12 ==> (res[256 + 2 * r + 1] == 0 <==> row[144 + r] == partial_state(
                row,
                rc,
                (r + 1) as nat,
            )[0])
            &&& res[281 + i] == 0 <==> row[64 + i] == partial_state(row, rc, 13)[i]
        }),
{
    let f = |k: int| external_round(row, rc, k);
    let g = |k: int| internal_round(row, rc, k);
    assert forall|k: int| 0 <= k < 8 implies (#[trigger] f(k)).len() == 32 by {}
    assert forall|k: int| 0 <= k < 12 implies (#[trigger] g(k)).len() == 2 by {}
    lemma_lane_count(f, 8, 32);
    lemma_lane_count(g, 12, 2);
    assert(lanes(g, 13) == lanes(g, 12) + g(12));
    assert(g(12).len() == 1);
    if r < 12 {
        lemma_lane_places(g, 12, 2, r, 0);
        lemma_lane_places(g, 12, 2, r, 1);
    }
    let res = poseidon2_residuals(row, rc);
    assert(res == lanes(f, 8) + lanes(g, 13) + joint(row, rc));
    assert(res[256 + 2 * r] == internal_round(row, rc, r)[0]);
    if r < 12 {
        assert(res[256 + 2 * r + 1] == internal_round(row, rc, r)[1]);
    }
    assert(res[281 + i] == joint(row, rc)[i]);
    lemma_powers(recorded_first(row, r), rc[r + 4][0]);
    lemma_partial_recorded(row, rc, (r + 1) as nat);
    lemma_partial_recorded(row, rc, 13);
}

/// The linear layer of the full rounds adds to each block of four the sum of all four blocks, and multiplies
/// the result by the circulant matrix of 2, 3, 1, 1.
pub proof fn law_full_round_layer(s: Seq<u32>, b: int)
    requires
        s.len() == 16,
        0 <= b < 4,
    ensures
        ({
            let r = external_layer(s);
            let p = BABYBEAR_P as int;
            let u0 = s[4 * b] + (s[0] + s[4] + s[8] + s[12]);
            let u1 = s[4 * b + 1] + (s[1] + s[5] + s[9] + s[13]);
            let u2 = s[4 * b + 2] + (s[2] + s[6] + s[10] + s[14]);
            let u3 = s[4 * b + 3] + (s[3] + s[7] + s[11] + s[15]);
            &&& r.len() == 16
            &&& r[4 * b] == (2 * u0 + 3 * u1 + u2 + u3) % p
            &&& r[4 * b + 1] == (u0 + 2 * u1 + 3 * u2 + u3) % p
            &&& r[4 * b + 2] == (u0 + u1 + 2 * u2 + 3 * u3) % p
            &&& r[4 * b + 3] == (3 * u0 + u1 + u2 + 2 * u3) % p
        }),
{
    let r = external_layer(s);
    assert((4 * b) % 4 == 0 && (4 * b + 1) % 4 == 1 && (4 * b + 2) % 4 == 2 && (4 * b + 3) % 4 == 3);
    assert forall|k: int| 0 <= k < 4 implies r[4 * b + k] == #[trigger] layer_sum(s, b, k) % (
    BABYBEAR_P as int) by {
        assert((4 * b + k) % 4 == k);
        lemma_mod_bound(layer_sum(s, b, k), BABYBEAR_P as int);
    }
    assert(r[4 * b + 0] == layer_sum(s, b, 0) % (BABYBEAR_P as int));
    assert(r[4 * b + 1] == layer_sum(s, b, 1) % (BABYBEAR_P as int));
    assert(r[4 * b + 2] == layer_sum(s, b, 2) % (BABYBEAR_P as int));
    assert(r[4 * b + 3] == layer_sum(s, b, 3) % (BABYBEAR_P as int));
}

spec fn layer_sum(s: Seq<u32>, b: int, k: int) -> int {
    block_product(s, 4 * b, k) + block_product(s, 0, k) + block_product(s, 4, k) + block_product(s, 8, k)
        + block_product(s, 12, k)
}

/// The factor of element `i` in the linear layer of the partial rounds.
pub open spec fn factor(i: int) -> int {
    seq![-2int, 1, 2, 4, 8, 16, 32, 64, 128, 256, 512, 1024, 2048, 4096, 8192, 32768][i]
}

/// The linear layer of the partial rounds adds to each element, times its factor, the sum of all elements,
/// and divides the result by 2 to the power of 32.
pub proof fn law_partial_round_layer(s: Seq<u32>, i: int)
    requires
        s.len() == 16,
        0 <= i < 16,
    ensures
        ({
            let r = internal_layer(s);
            let sum = s[0] + s[1] + s[2] + s[3] + s[4] + s[5] + s[6] + s[7] + s[8] + s[9] + s[10] + s[11]
                + s[12] + s[13] + s[14] + s[15];
            &&& r.len() == 16
            &&& r[i] < BABYBEAR_P
            &&& (r[i] * 0x1_0000_0000) % (BABYBEAR_P as int) == (sum + factor(i) * s[i]) % (
            BABYBEAR_P as int)
        }),
{
    let p = BABYBEAR_P as int;
    let r = internal_layer(s);
    let sum = s[0] + s[1] + s[2] + s[3] + s[4] + s[5] + s[6] + s[7] + s[8] + s[9] + s[10] + s[11] + s[12]
        + s[13] + s[14] + s[15];
    assert(plain_sum(s, 16) == sum) by {
        reveal_with_fuel(plain_sum, 17);
    }
    lemma2_to64();
    let d = internal_diagonal(i);
    assert(d == (if i == 0 {
        p - 2
    } else {
        factor(i)
    }));
    let inner = sum + d * s[i];
    let inverse = MONTY_INVERSE as int;
    let shift = 0x1_0000_0000int;
    lemma_mod_bound(inner * inverse, p);
    assert(r[i] as int == (inner * inverse) % p);
    lemma_mul_mod_noop_left(inner * inverse, shift, p);
    assert((r[i] * shift) % p == ((inner * inverse) * shift) % p);
    assert((inner * inverse) * shift == inner * (inverse * shift)) by (nonlinear_arith);
    lemma_mul_mod_noop_right(inner, inverse * shift, p);
    assert((inverse * shift) % p == 1);
    assert(inner * 1 == inner);
    assert((r[i] * shift) % p == inner % p);
    if i == 0 {
        assert((p - 2) * s[i] == p * s[i] + (-2) * s[i]) by (nonlinear_arith);
        assert(inner == p * s[i] + (sum + (-2) * s[i]));
        lemma_mod_multiples_vanish(s[i] as int, sum + (-2) * s[i], p);
    }
}

} // verus!
