//! What the lanes of the `BaseAlu` and `ExtAlu` chips have to hold.

use vstd::arithmetic::div_mod::{lemma_add_mod_noop, lemma_mod_bound, lemma_small_mod};
use vstd::prelude::*;

use crate::babybear::{canonical, f_add, f_mul, f_sub, law_boolean_check_is_exact, BABYBEAR_P};
use crate::chips::base_alu::{base_lane, base_lane_at, BaseAlu};
use crate::chips::ext_alu::{ext_lane, ExtAlu};
use crate::chips::{lanes, one_operation};
use crate::constraints::RowCheck;
use crate::extension::{e_add, e_mul, e_sub, BBExt};
use crate::meaning::batch_fri::element;
use crate::meaning::field::{
    lemma_congruent, lemma_e_add, lemma_e_difference, lemma_minus_product, lemma_zero_difference,
    lemma_zero_product,
};
use crate::ring::lemma_mul_commutes;

verus! {

/// Lanes of three residuals stand side by side.
proof fn lemma_lane_at(f: spec_fn(int) -> Seq<u32>, n: nat, l: int)
    requires
        forall|i: int| 0 <= i < n ==> (#[trigger] f(i)).len() == 3,
        0 <= l < n,
    ensures
        lanes(f, n).len() == 3 * n,
        lanes(f, n)[3 * l] == f(l)[0],
        lanes(f, n)[3 * l + 1] == f(l)[1],
        lanes(f, n)[3 * l + 2] == f(l)[2],
    decreases n,
{
    let before = lanes(f, (n - 1) as nat);
    lemma_lanes_len(f, (n - 1) as nat);
    assert(f(n - 1).len() == 3);
    if l < n - 1 {
        lemma_lane_at(f, (n - 1) as nat, l);
    }
}

proof fn lemma_lanes_len(f: spec_fn(int) -> Seq<u32>, n: nat)
    requires
        forall|i: int| 0 <= i < n ==> (#[trigger] f(i)).len() == 3,
    ensures
        lanes(f, n).len() == 3 * n,
    decreases n,
{
    if n > 0 {
        lemma_lanes_len(f, (n - 1) as nat);
        assert(f(n - 1).len() == 3);
    }
}

/// The sum of four canonical values in the field.
proof fn lemma_sum_of_four(a: u32, b: u32, c: u32, d: u32)
    requires
        a < BABYBEAR_P,
        b < BABYBEAR_P,
        c < BABYBEAR_P,
        d < BABYBEAR_P,
    ensures
        f_add(f_add(a, b), f_add(c, d)) == (a + b + c + d) % (BABYBEAR_P as int),
        f_add(f_add(a, b), f_add(c, d)) < BABYBEAR_P,
{
    let p = BABYBEAR_P as int;
    lemma_mod_bound(a + b, p);
    lemma_mod_bound(c + d, p);
    lemma_add_mod_noop(a + b, c + d, p);
    lemma_mod_bound(a + b + c + d, p);
}

/// At most one of four flags is set exactly where each is 0 or 1 and they add up to no more than 1.
proof fn lemma_one_operation(a: u32, b: u32, c: u32, d: u32)
    requires
        a < BABYBEAR_P,
        b < BABYBEAR_P,
        c < BABYBEAR_P,
        d < BABYBEAR_P,
    ensures
        one_operation(a, b, c, d) <==> a <= 1 && b <= 1 && c <= 1 && d <= 1 && a + b + c + d <= 1,
{
    let sum = f_add(f_add(a, b), f_add(c, d));
    lemma_sum_of_four(a, b, c, d);
    law_boolean_check_is_exact(a);
    law_boolean_check_is_exact(b);
    law_boolean_check_is_exact(c);
    law_boolean_check_is_exact(d);
    law_boolean_check_is_exact(sum);
    if a <= 1 && b <= 1 && c <= 1 && d <= 1 {
        lemma_small_mod((a + b + c + d) as nat, BABYBEAR_P as nat);
    }
}

/// The four products of a lane vanish exactly where each operation that is flagged holds.
proof fn lemma_base_operations(out: u32, in1: u32, in2: u32, flags: Seq<u32>)
    requires
        out < BABYBEAR_P,
        in1 < BABYBEAR_P,
        in2 < BABYBEAR_P,
        flags.len() == 4,
        canonical(flags),
    ensures
        ({
            let p = BABYBEAR_P as int;
            &&& f_mul(flags[0], f_sub(out, f_add(in1, in2))) == 0 <==> flags[0] == 0 || (out - in1
                - in2) % p == 0
            &&& f_mul(flags[1], f_sub(out, f_sub(in1, in2))) == 0 <==> flags[1] == 0 || (in1 - in2
                - out) % p == 0
            &&& f_mul(flags[2], f_sub(out, f_mul(in1, in2))) == 0 <==> flags[2] == 0 || (out - in1
                * in2) % p == 0
            &&& f_mul(flags[3], f_sub(in1, f_mul(out, in2))) == 0 <==> flags[3] == 0 || (in1 - out
                * in2) % p == 0
        }),
{
    let p = BABYBEAR_P as int;
    assert(flags[0] < p && flags[1] < p && flags[2] < p && flags[3] < p);
    lemma_mod_bound(in1 + in2, p);
    lemma_mod_bound(in1 - in2, p);
    lemma_zero_difference(out, f_add(in1, in2));
    lemma_zero_difference(out, f_sub(in1, in2));
    lemma_congruent(out, in1 + in2);
    lemma_congruent(out, in1 - in2);
    lemma_minus_product(out, in1, in2);
    lemma_minus_product(in1, out, in2);
    lemma_zero_product(flags[0], f_sub(out, f_add(in1, in2)));
    lemma_zero_product(flags[1], f_sub(out, f_sub(in1, in2)));
    lemma_zero_product(flags[2], f_sub(out, f_mul(in1, in2)));
    lemma_zero_product(flags[3], f_sub(in1, f_mul(out, in2)));
    assert((out - (in1 - in2)) % p == 0 <==> (in1 - in2 - out) % p == 0) by {
        vstd::arithmetic::div_mod::lemma_mod_equivalence(out as int, in1 - in2, p);
        vstd::arithmetic::div_mod::lemma_mod_equivalence(in1 - in2, out as int, p);
    }
}

/// What the three residuals of lane `l` of the `BaseAlu` chip say: at most one of the four operation
/// flags is set; an operation whose flag is set holds in the field, addition, subtraction, multiplication
/// or division as a product; and a lane whose flags add up to zero is empty.
pub proof fn law_base_alu_lane(main: Seq<u32>, pre: Seq<u32>, l: int)
    requires
        main.len() == 12,
        pre.len() == 32,
        canonical(main),
        canonical(pre),
        0 <= l < 4,
    ensures
        ({
            let r = BaseAlu.residuals(main, pre);
            let p = BABYBEAR_P as int;
            let (out, in1, in2) = (main[3 * l], main[3 * l + 1], main[3 * l + 2]);
            let (is_add, is_sub) = (pre[8 * l + 3], pre[8 * l + 4]);
            let (is_mul, is_div) = (pre[8 * l + 5], pre[8 * l + 6]);
            &&& r.len() == 12
            &&& r[3 * l] == 0 <==> is_add <= 1 && is_sub <= 1 && is_mul <= 1 && is_div <= 1 && is_add
                + is_sub + is_mul + is_div <= 1
            &&& r[3 * l + 1] == 0 <==> {
                &&& is_add != 0 ==> (out - in1 - in2) % p == 0
                &&& is_sub != 0 ==> (in1 - in2 - out) % p == 0
                &&& is_mul != 0 ==> (out - in1 * in2) % p == 0
                &&& is_div != 0 ==> (in1 - out * in2) % p == 0
            }
            &&& r[3 * l + 2] == 0 <==> (is_add + is_sub + is_mul + is_div) % p != 0 || (out == 0 && in1
                == 0 && in2 == 0 && pre[8 * l] == 0 && pre[8 * l + 1] == 0 && pre[8 * l + 2] == 0
                && pre[8 * l + 7] == 0)
        }),
{
    let f = base_lane_at(main, pre);
    let v = main.subrange(3 * l, 3 * l + 3);
    let m = pre.subrange(8 * l, 8 * l + 8);
    assert forall|i: int| 0 <= i < 4 implies (#[trigger] f(i)).len() == 3 by {
        assert(f(i) == base_lane(
            main.subrange(3 * i, 3 * i + 3),
            pre.subrange(8 * i, 8 * i + 8),
        ));
    }
    lemma_lane_at(f, 4, l);
    assert(f(l) == base_lane(v, m));
    assert(v[0] == main[3 * l] && v[1] == main[3 * l + 1] && v[2] == main[3 * l + 2]);
    assert(m[0] == pre[8 * l] && m[1] == pre[8 * l + 1] && m[2] == pre[8 * l + 2]);
    assert(m[3] == pre[8 * l + 3] && m[4] == pre[8 * l + 4] && m[5] == pre[8 * l + 5]);
    assert(m[6] == pre[8 * l + 6] && m[7] == pre[8 * l + 7]);
    let flags = seq![m[3], m[4], m[5], m[6]];
    assert(canonical(flags));
    lemma_base_operations(v[0], v[1], v[2], flags);
    lemma_one_operation(m[3], m[4], m[5], m[6]);
    lemma_sum_of_four(m[3], m[4], m[5], m[6]);
}

/// The operations that are flagged hold, each undone: the sum less a summand, the difference and what was
/// taken away, the factors in the other order, the quotient times its divisor.
pub open spec fn ext_operations_hold(out: BBExt, in1: BBExt, in2: BBExt, flags: Seq<u32>) -> bool {
    &&& flags[0] != 0 ==> e_sub(out, in2) == in1
    &&& flags[1] != 0 ==> e_add(in2, out) == in1
    &&& flags[2] != 0 ==> e_mul(in2, in1) == out
    &&& flags[3] != 0 ==> e_mul(in2, out) == in1
}

proof fn lemma_ext_operations(out: BBExt, in1: BBExt, in2: BBExt, flags: Seq<u32>)
    requires
        out.wf(),
        in1.wf(),
        in2.wf(),
    ensures
        ext_operations_hold(out, in1, in2, flags) <==> {
            &&& flags[0] != 0 ==> out == e_add(in1, in2)
            &&& flags[1] != 0 ==> out == e_sub(in1, in2)
            &&& flags[2] != 0 ==> out == e_mul(in1, in2)
            &&& flags[3] != 0 ==> in1 == e_mul(out, in2)
        },
{
    assert(out == e_add(in1, in2) <==> e_sub(out, in2) == in1) by {
        lemma_e_difference(out, in2, in1);
    }
    assert(out == e_sub(in1, in2) <==> e_add(in2, out) == in1) by {
        lemma_e_difference(in1, in2, out);
        lemma_e_add(out, in2, in1);
    }
    assert(e_mul(in2, in1) == e_mul(in1, in2)) by {
        lemma_mul_commutes(in1, in2);
    }
    assert(e_mul(in2, out) == e_mul(out, in2)) by {
        lemma_mul_commutes(out, in2);
    }
}

/// The values and flags of a lane.
pub open spec fn ext_lane_holds(main: Seq<u32>, pre: Seq<u32>, l: int) -> bool {
    ext_operations_hold(
        element(main, 12 * l),
        element(main, 12 * l + 4),
        element(main, 12 * l + 8),
        pre.subrange(8 * l + 3, 8 * l + 7),
    )
}

proof fn lemma_ext_lane(main: Seq<u32>, pre: Seq<u32>, l: int)
    requires
        0 <= l,
        12 * l + 12 <= main.len(),
        8 * l + 8 <= pre.len(),
        canonical(main),
        canonical(pre),
    ensures
        ({
            let r = ext_lane(main, pre, l);
            let (is_add, is_sub) = (pre[8 * l + 3], pre[8 * l + 4]);
            let (is_mul, is_div) = (pre[8 * l + 5], pre[8 * l + 6]);
            &&& r.len() == 3
            &&& r[0] == 0 <==> is_add <= 1 && is_sub <= 1 && is_mul <= 1 && is_div <= 1 && is_add
                + is_sub + is_mul + is_div <= 1
            &&& r[1] == 0 <==> ext_lane_holds(main, pre, l)
            &&& r[2] == 0
        }),
{
    let (out, in1, in2) = (
        element(main, 12 * l),
        element(main, 12 * l + 4),
        element(main, 12 * l + 8),
    );
    let flags = pre.subrange(8 * l + 3, 8 * l + 7);
    lemma_ext_operations(out, in1, in2, flags);
    lemma_one_operation(pre[8 * l + 3], pre[8 * l + 4], pre[8 * l + 5], pre[8 * l + 6]);
}

/// What the three residuals of lane `l` of the `ExtAlu` chip say: at most one of the four operation flags
/// is set; an operation whose flag is set holds in the extension, where a sum or difference is undone and
/// a quotient is a factor of its dividend; and the third says nothing.
pub proof fn law_ext_alu_lane(check: ExtAlu, main: Seq<u32>, pre: Seq<u32>, l: int)
    requires
        main.len() == 12 * check.lanes,
        pre.len() == 8 * check.lanes,
        canonical(main),
        canonical(pre),
        0 <= l < check.lanes,
    ensures
        ({
            let r = check.residuals(main, pre);
            let (is_add, is_sub) = (pre[8 * l + 3], pre[8 * l + 4]);
            let (is_mul, is_div) = (pre[8 * l + 5], pre[8 * l + 6]);
            &&& r.len() == 3 * check.lanes
            &&& r[3 * l] == 0 <==> is_add <= 1 && is_sub <= 1 && is_mul <= 1 && is_div <= 1 && is_add
                + is_sub + is_mul + is_div <= 1
            &&& r[3 * l + 1] == 0 <==> ext_operations_hold(
                element(main, 12 * l),
                element(main, 12 * l + 4),
                element(main, 12 * l + 8),
                seq![is_add, is_sub, is_mul, is_div],
            )
            &&& r[3 * l + 2] == 0
        }),
{
    let f = |i: int| ext_lane(main, pre, i);
    assert forall|i: int| 0 <= i < check.lanes implies (#[trigger] f(i)).len() == 3 by {}
    lemma_lane_at(f, check.lanes as nat, l);
    lemma_ext_lane(main, pre, l);
    assert(pre.subrange(8 * l + 3, 8 * l + 7) =~= seq![
        pre[8 * l + 3],
        pre[8 * l + 4],
        pre[8 * l + 5],
        pre[8 * l + 6],
    ]);
}

} // verus!
