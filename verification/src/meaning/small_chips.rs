//! What the rows of the `Select` and `PublicValues` chips have to hold.

use vstd::arithmetic::div_mod::{
    lemma_add_mod_noop, lemma_mod_bound, lemma_mul_mod_noop_left, lemma_small_mod,
};
use vstd::prelude::*;

use crate::babybear::{canonical, f_add, f_sub, law_boolean_check_is_exact, BABYBEAR_P};
use crate::chips::public_values::{field_sum, PublicValues};
use crate::chips::select::{choice, SelectMain, SelectPre};
use crate::constraints::RowCheck;
use crate::meaning::field::{lemma_congruent, lemma_wraps};

verus! {

/// What `choice` gives is `a` moved towards `b` by the bit.
proof fn lemma_choice(bit: u32, a: u32, b: u32, out: u32)
    requires
        bit < BABYBEAR_P,
        a < BABYBEAR_P,
        b < BABYBEAR_P,
        out < BABYBEAR_P,
    ensures
        out == choice(bit, a, b) <==> (out - a - bit * (b - a)) % (BABYBEAR_P as int) == 0,
        choice(0, a, b) == a,
        choice(1, a, b) == b,
{
    let p = BABYBEAR_P as int;
    let x = bit * b;
    let n = f_sub(1, bit);
    let y = n * a;
    lemma_mod_bound(x, p);
    lemma_mod_bound(y, p);
    lemma_add_mod_noop(x, y, p);
    lemma_mul_mod_noop_left(1 - bit, a as int, p);
    lemma_wraps(1, bit);
    let z = (1 - bit) * a;
    assert(y % p == z % p);
    lemma_add_mod_noop(x, z, p);
    assert(choice(bit, a, b) == (x + z) % p);
    assert(x + z == a + bit * (b - a)) by (nonlinear_arith)
        requires
            x == bit * b,
            z == (1 - bit) * a,
    ;
    lemma_congruent(out, x + z);
    lemma_wraps(1, 0);
    lemma_wraps(1, 1);
    lemma_small_mod(a as nat, p as nat);
    lemma_small_mod(b as nat, p as nat);
    assert(0 * a == 0 && 0 * b == 0 && 1 * a == a && 1 * b == b);
}

/// What the residuals of a main row `(bit, out1, out2, in1, in2)` of the `Select` chip say: the bit is 0
/// or 1, and the outputs are the inputs moved towards each other by the bit. So all three are zero exactly
/// where the outputs are the inputs, or are the inputs swapped with the bit set.
pub proof fn law_select_row(main: Seq<u32>, pre: Seq<u32>)
    requires
        main.len() == 5,
        canonical(main),
    ensures
        ({
            let r = SelectMain.residuals(main, pre);
            let p = BABYBEAR_P as int;
            let (bit, out1, out2, in1, in2) = (main[0], main[1], main[2], main[3], main[4]);
            &&& r.len() == 3
            &&& r[0] == 0 <==> bit == 0 || bit == 1
            &&& r[1] == 0 <==> (out1 - in1 - bit * (in2 - in1)) % p == 0
            &&& r[2] == 0 <==> (out2 - in2 - bit * (in1 - in2)) % p == 0
            &&& r[0] == 0 && r[1] == 0 && r[2] == 0 <==> {
                ||| bit == 0 && out1 == in1 && out2 == in2
                ||| bit == 1 && out1 == in2 && out2 == in1
            }
        }),
{
    law_boolean_check_is_exact(main[0]);
    lemma_choice(main[0], main[3], main[4], main[1]);
    lemma_choice(main[0], main[4], main[3], main[2]);
}

/// What the residuals of a preprocessed row of the `Select` chip say: the flag is 0 or 1, and a row
/// without it is all zero. The constraint reads that row alone.
pub proof fn law_select_pre_row(row: Seq<u32>, other: Seq<u32>)
    requires
        row.len() == 8,
        canonical(row),
    ensures
        ({
            let r = SelectPre.residuals(row, other);
            &&& r.len() == 2
            &&& r[0] == 0 <==> row[0] == 0 || row[0] == 1
            &&& r[1] == 0 <==> row[0] != 0 || (row[1] == 0 && row[2] == 0 && row[3] == 0 && row[4] == 0
                && row[5] == 0 && row[6] == 0 && row[7] == 0)
        }),
{
    law_boolean_check_is_exact(row[0]);
    if row[1] == 0 && row[2] == 0 && row[3] == 0 && row[4] == 0 && row[5] == 0 && row[6] == 0
        && row[7] == 0 {
        assert forall|c: int| 1 <= c < 8 implies #[trigger] row[c] == 0 by {}
    }
}

/// The eight position flags of a row, added up.
pub open spec fn flags_sum(pre: Seq<u32>) -> int {
    pre[0] + pre[1] + pre[2] + pre[3] + pre[4] + pre[5] + pre[6] + pre[7]
}

proof fn lemma_flags_sum(pre: Seq<u32>)
    requires
        pre.len() == 10,
        canonical(pre),
    ensures
        field_sum(pre, 8) == flags_sum(pre) % (BABYBEAR_P as int),
{
    let p = BABYBEAR_P as int;
    reveal_with_fuel(field_sum, 9);
    let s1 = field_sum(pre, 1);
    let s2 = field_sum(pre, 2);
    let s3 = field_sum(pre, 3);
    let s4 = field_sum(pre, 4);
    let s5 = field_sum(pre, 5);
    let s6 = field_sum(pre, 6);
    let s7 = field_sum(pre, 7);
    let (x0, x1, x2, x3) = (pre[0], pre[1], pre[2], pre[3]);
    let (x4, x5, x6, x7) = (pre[4], pre[5], pre[6], pre[7]);
    lemma_running(0, 0, x0);
    lemma_running(s1, x0 as int, x1);
    lemma_running(s2, x0 + x1, x2);
    lemma_running(s3, x0 + x1 + x2, x3);
    lemma_running(s4, x0 + x1 + x2 + x3, x4);
    lemma_running(s5, x0 + x1 + x2 + x3 + x4, x5);
    lemma_running(s6, x0 + x1 + x2 + x3 + x4 + x5, x6);
    lemma_running(s7, x0 + x1 + x2 + x3 + x4 + x5 + x6, x7);
}

/// One more summand.
proof fn lemma_running(s: u32, t: int, x: u32)
    requires
        s == t % (BABYBEAR_P as int),
    ensures
        f_add(s, x) == (t + x) % (BABYBEAR_P as int),
{
    let p = BABYBEAR_P as int;
    lemma_mod_bound(t, p);
    lemma_small_mod(s as nat, p as nat);
    lemma_add_mod_noop(t, x as int, p);
    lemma_add_mod_noop(s as int, x as int, p);
    lemma_mod_bound(t + x, p);
}

/// What the residuals of the `PublicValues` chip say: at most one of the eight position flags is 1 and
/// all others are 0; and where they add up to zero, the element, its address and its multiplicity are
/// zero.
pub proof fn law_public_values_row(main: Seq<u32>, pre: Seq<u32>)
    requires
        main.len() == 1,
        pre.len() == 10,
        canonical(main),
        canonical(pre),
    ensures
        ({
            let r = PublicValues.residuals(main, pre);
            &&& r.len() == 2
            &&& r[0] == 0 <==> (forall|i: int|
                0 <= i < 8 ==> #[trigger] pre[i] == 0 || pre[i] == 1) && flags_sum(pre) <= 1
            &&& r[1] == 0 <==> flags_sum(pre) % (BABYBEAR_P as int) != 0 || (main[0] == 0 && pre[8] == 0
                && pre[9] == 0)
        }),
{
    let p = BABYBEAR_P as int;
    lemma_flags_sum(pre);
    let sum = field_sum(pre, 8);
    law_boolean_check_is_exact(sum);
    assert forall|i: int| 0 <= i < 8 implies crate::babybear::f_is_boolean(#[trigger] pre[i]) == (
    pre[i] == 0 || pre[i] == 1) by {
        law_boolean_check_is_exact(pre[i]);
    }
    if forall|i: int| 0 <= i < 8 ==> #[trigger] pre[i] == 0 || pre[i] == 1 {
        assert(pre[0] <= 1 && pre[1] <= 1 && pre[2] <= 1 && pre[3] <= 1);
        assert(pre[4] <= 1 && pre[5] <= 1 && pre[6] <= 1 && pre[7] <= 1);
        assert(0 <= flags_sum(pre) <= 8);
        lemma_small_mod(flags_sum(pre) as nat, p as nat);
    }
}

} // verus!
