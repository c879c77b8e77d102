//! The `ExpReverseBitsLen` rows compute a power, bit by bit.

use vstd::arithmetic::div_mod::{lemma_mul_mod_noop, lemma_small_mod};
use vstd::arithmetic::power::{lemma_pow0, lemma_pow1, lemma_pow_adds, pow};
use vstd::prelude::*;

use crate::babybear::{canonical, f_mul, f_sub, BABYBEAR_P};
use crate::chips::exp_reverse_bits::ExpReverseBits;
use crate::constraints::TransitionCheck;
use crate::meaning::field::{
    lemma_congruent, lemma_minus_product, lemma_wraps, lemma_zero_difference, lemma_zero_product,
};
use crate::stream::zeros;

verus! {

/// `1 - a` is zero exactly for 1.
proof fn lemma_complement(a: u32)
    requires
        a < BABYBEAR_P,
    ensures
        f_sub(1, a) == 0 <==> a == 1,
        f_sub(1, a) < BABYBEAR_P,
{
    lemma_wraps(1, a);
}

/// What each residual of a row by itself says: on a real row the factor is `x` where the bit is set and
/// 1 where it is not, and the recorded products are products; the first row of a run starts from its
/// factor, any other real row from the square that it was handed.
pub proof fn law_exponentiation_row(row: u32, main: Seq<u32>, pre: Seq<u32>)
    requires
        main.len() == 7,
        pre.len() == 10,
        canonical(main),
        canonical(pre),
    ensures
        ({
            let r = ExpReverseBits.residuals(row, main, pre);
            let (x, bit, prev_sq, prev_sq_mul) = (main[0], main[1], main[2], main[3]);
            let (accum, accum_sq, factor) = (main[4], main[5], main[6]);
            let (is_first, is_real) = (pre[7], pre[9]);
            &&& r.len() == 6
            &&& r[0] == 0 <==> is_real == 0 || bit == 0 || factor == x
            &&& r[1] == 0 <==> is_real == 0 || bit == 1 || factor == 1
            &&& r[2] == 0 <==> is_real == 0 || (prev_sq_mul - prev_sq * factor) % (
            BABYBEAR_P as int) == 0
            &&& r[3] == 0 <==> is_first == 0 || accum == factor
            &&& r[4] == 0 <==> is_real == 0 || is_first == 1 || accum == prev_sq_mul
            &&& r[5] == 0 <==> is_real == 0 || (accum_sq - accum * accum) % (BABYBEAR_P as int) == 0
        }),
{
    let (x, bit, prev_sq, prev_sq_mul) = (main[0], main[1], main[2], main[3]);
    let (accum, accum_sq, factor) = (main[4], main[5], main[6]);
    let (is_first, is_real) = (pre[7], pre[9]);
    lemma_zero_product(is_real, bit);
    lemma_zero_difference(factor, x);
    lemma_zero_product(f_mul(is_real, bit), f_sub(factor, x));
    lemma_complement(bit);
    lemma_zero_product(is_real, f_sub(1, bit));
    lemma_zero_difference(factor, 1);
    lemma_zero_product(f_mul(is_real, f_sub(1, bit)), f_sub(factor, 1));
    lemma_minus_product(prev_sq_mul, prev_sq, factor);
    lemma_zero_product(is_real, f_sub(prev_sq_mul, f_mul(prev_sq, factor)));
    lemma_zero_difference(accum, factor);
    lemma_zero_product(is_first, f_sub(accum, factor));
    lemma_complement(is_first);
    lemma_zero_product(is_real, f_sub(1, is_first));
    lemma_zero_difference(accum, prev_sq_mul);
    lemma_zero_product(f_mul(is_real, f_sub(1, is_first)), f_sub(accum, prev_sq_mul));
    lemma_minus_product(accum_sq, accum, accum);
    lemma_zero_product(is_real, f_sub(accum_sq, f_mul(accum, accum)));
}

/// What the two residuals between rows say: unless the run ends or the next row is not real, the base
/// stays and the square is handed on.
pub proof fn law_exponentiation_links(
    main: Seq<u32>,
    pre: Seq<u32>,
    next_main: Seq<u32>,
    next_pre: Seq<u32>,
)
    requires
        main.len() == 7,
        pre.len() == 10,
        next_main.len() == 7,
        next_pre.len() == 10,
        canonical(main),
        canonical(pre),
        canonical(next_main),
        canonical(next_pre),
    ensures
        ({
            let r = ExpReverseBits.links(main, pre, next_main, next_pre);
            let ends = next_pre[9] == 0 || pre[8] == 1;
            &&& r.len() == 2
            &&& ExpReverseBits.num_links() == 2
            &&& r[0] == 0 <==> ends || next_main[0] == main[0]
            &&& r[1] == 0 <==> ends || next_main[2] == main[5]
        }),
{
    lemma_complement(pre[8]);
    lemma_zero_product(next_pre[9], f_sub(1, pre[8]));
    let goes_on = f_mul(next_pre[9], f_sub(1, pre[8]));
    lemma_zero_difference(main[0], next_main[0]);
    lemma_zero_difference(next_main[2], main[5]);
    lemma_zero_product(goes_on, f_sub(main[0], next_main[0]));
    lemma_zero_product(goes_on, f_sub(next_main[2], main[5]));
}

/// The number whose binary digits are the bits of the first `n` rows, most significant first.
pub open spec fn bits_number(mains: Seq<Seq<u32>>, n: nat) -> nat
    decreases n,
{
    if n == 0 {
        0
    } else {
        2 * bits_number(mains, (n - 1) as nat) + mains[n - 1][1] as nat
    }
}

/// A run of real rows: the first one, and only that, is flagged as first, no row before the last one is
/// flagged as last, and the bits are bits.
pub open spec fn is_run(mains: Seq<Seq<u32>>, pres: Seq<Seq<u32>>) -> bool {
    &&& mains.len() > 0
    &&& pres.len() == mains.len()
    &&& forall|i: int|
        0 <= i < mains.len() ==> {
            &&& (#[trigger] mains[i]).len() == 7
            &&& canonical(mains[i])
            &&& mains[i][1] == 0 || mains[i][1] == 1
        }
    &&& forall|i: int|
        0 <= i < pres.len() ==> {
            &&& (#[trigger] pres[i]).len() == 10
            &&& canonical(pres[i])
            &&& pres[i][9] == 1
            &&& pres[i][7] == (if i == 0 {
                1u32
            } else {
                0u32
            })
            &&& i < pres.len() - 1 ==> pres[i][8] == 0
        }
}

/// All residuals of a run are zero: those of its rows, and those between them.
pub open spec fn run_passes(mains: Seq<Seq<u32>>, pres: Seq<Seq<u32>>, from: u32) -> bool {
    &&& forall|i: int|
        0 <= i < mains.len() ==> #[trigger] ExpReverseBits.residuals(
            (from + i) as u32,
            mains[i],
            pres[i],
        ) == zeros(6)
    &&& forall|i: int|
        0 <= i < mains.len() - 1 ==> #[trigger] ExpReverseBits.links(
            mains[i],
            pres[i],
            mains[i + 1],
            pres[i + 1],
        ) == zeros(2)
}

/// A product of remainders of powers is the remainder of the power.
proof fn lemma_power_product(x: int, a: nat, b: nat, u: int, v: int)
    requires
        u == pow(x, a) % (BABYBEAR_P as int),
        v == pow(x, b) % (BABYBEAR_P as int),
    ensures
        (u * v) % (BABYBEAR_P as int) == pow(x, a + b) % (BABYBEAR_P as int),
{
    lemma_pow_adds(x, a, b);
    lemma_mul_mod_noop(pow(x, a), pow(x, b), BABYBEAR_P as int);
}

/// The factor of a bit is that power of the base.
proof fn lemma_factor(x: u32, bit: u32)
    requires
        x < BABYBEAR_P,
        bit == 0 || bit == 1,
    ensures
        pow(x as int, bit as nat) % (BABYBEAR_P as int) == (if bit == 1 {
            x as int
        } else {
            1
        }),
{
    lemma_pow0(x as int);
    lemma_pow1(x as int);
    lemma_small_mod(x as nat, BABYBEAR_P as nat);
}

/// Row `n - 1` of a run that passes holds the power of the bits so far.
proof fn lemma_run_power(mains: Seq<Seq<u32>>, pres: Seq<Seq<u32>>, from: u32, n: nat)
    requires
        is_run(mains, pres),
        run_passes(mains, pres, from),
        1 <= n <= mains.len(),
    ensures
        mains[n - 1][0] == mains[0][0],
        mains[n - 1][4] == pow(mains[0][0] as int, bits_number(mains, n)) % (BABYBEAR_P as int),
    decreases n,
{
    let p = BABYBEAR_P as int;
    let i = n - 1;
    let x = mains[0][0];
    let (main, pre) = (mains[i], pres[i]);
    let bit = main[1];
    law_exponentiation_row((from + i) as u32, main, pre);
    let r = ExpReverseBits.residuals((from + i) as u32, main, pre);
    assert(r == zeros(6));
    lemma_factor(x, bit);
    if n == 1 {
        assert(bits_number(mains, 1) == bit) by {
            reveal_with_fuel(bits_number, 2);
        }
    } else {
        lemma_run_power(mains, pres, from, (n - 1) as nat);
        let (last, last_pre) = (mains[i - 1], pres[i - 1]);
        law_exponentiation_links(last, last_pre, main, pre);
        law_exponentiation_row((from + i - 1) as u32, last, last_pre);
        assert(ExpReverseBits.links(last, last_pre, mains[i - 1 + 1], pres[i - 1 + 1]) == zeros(2));
        assert(ExpReverseBits.residuals((from + (i - 1)) as u32, last, last_pre) == zeros(6));
        let v = bits_number(mains, (n - 1) as nat);
        // The square that is handed on.
        lemma_congruent(last[5], last[4] * last[4]);
        lemma_power_product(x as int, v, v, last[4] as int, last[4] as int);
        assert(main[2] == pow(x as int, v + v) % p);
        // Times the factor of the bit.
        lemma_congruent(main[3], main[2] * main[6]);
        lemma_power_product(x as int, v + v, bit as nat, main[2] as int, main[6] as int);
        assert(v + v + bit as nat == bits_number(mains, n));
    }
}

/// A run of rows that leaves only zero residuals computes a power: the accumulator of its last row is
/// the base, which is the same in all rows, raised to the number whose binary digits are the bits of
/// the rows, most significant first.
pub proof fn law_run_computes_power(mains: Seq<Seq<u32>>, pres: Seq<Seq<u32>>, from: u32)
    requires
        is_run(mains, pres),
        run_passes(mains, pres, from),
    ensures
        mains.last()[4] == pow(mains[0][0] as int, bits_number(mains, mains.len())) % (
        BABYBEAR_P as int),
        forall|i: int| 0 <= i < mains.len() ==> #[trigger] mains[i][0] == mains[0][0],
{
    lemma_run_power(mains, pres, from, mains.len());
    assert forall|i: int| 0 <= i < mains.len() implies #[trigger] mains[i][0] == mains[0][0] by {
        lemma_run_power(mains, pres, from, (i + 1) as nat);
    }
}

/// Row `i` of a run records the powers of the bits up to it.
pub open spec fn records_power(mains: Seq<Seq<u32>>, x: u32, i: int) -> bool {
    let p = BABYBEAR_P as int;
    let v = bits_number(mains, (i + 1) as nat);
    let before = bits_number(mains, i as nat);
    let main = mains[i];
    &&& main[0] == x
    &&& main[4] == pow(x as int, v) % p
    &&& main[5] == pow(x as int, 2 * v) % p
    &&& main[6] == (if main[1] == 1 {
        x
    } else {
        1u32
    })
    &&& i > 0 ==> main[2] == pow(x as int, 2 * before) % p && main[3] == main[4]
    &&& i == 0 ==> main[2] == 0 && main[3] == 0
}

/// The rows that compute a power leave only zero residuals.
pub proof fn law_power_passes(mains: Seq<Seq<u32>>, pres: Seq<Seq<u32>>, from: u32, x: u32)
    requires
        is_run(mains, pres),
        x < BABYBEAR_P,
        forall|i: int| 0 <= i < mains.len() ==> #[trigger] records_power(mains, x, i),
    ensures
        run_passes(mains, pres, from),
{
    let p = BABYBEAR_P as int;
    assert forall|i: int| 0 <= i < mains.len() implies #[trigger] ExpReverseBits.residuals(
        (from + i) as u32,
        mains[i],
        pres[i],
    ) == zeros(6) by {
        let (main, pre) = (mains[i], pres[i]);
        let v = bits_number(mains, (i + 1) as nat);
        let before = bits_number(mains, i as nat);
        assert(records_power(mains, x, i));
        let r = ExpReverseBits.residuals((from + i) as u32, main, pre);
        law_exponentiation_row((from + i) as u32, main, pre);
        lemma_factor(x, main[1]);
        lemma_power_product(x as int, v, v, main[4] as int, main[4] as int);
        lemma_congruent(main[5], main[4] * main[4]);
        lemma_congruent(main[3], main[2] * main[6]);
        if i > 0 {
            lemma_power_product(
                x as int,
                2 * before,
                main[1] as nat,
                main[2] as int,
                main[6] as int,
            );
            assert(2 * before + main[1] as nat == v);
        } else {
            assert(0 * main[6] == 0);
            assert(v == main[1]) by {
                reveal_with_fuel(bits_number, 2);
            }
        }
        assert forall|k: int| 0 <= k < 6 implies r[k] == 0 by {}
        assert(r =~= zeros(6));
    }
    assert forall|i: int| 0 <= i < mains.len() - 1 implies #[trigger] ExpReverseBits.links(
        mains[i],
        pres[i],
        mains[i + 1],
        pres[i + 1],
    ) == zeros(2) by {
        assert(records_power(mains, x, i));
        assert(records_power(mains, x, i + 1));
        law_exponentiation_links(mains[i], pres[i], mains[i + 1], pres[i + 1]);
        assert(ExpReverseBits.links(mains[i], pres[i], mains[i + 1], pres[i + 1]) =~= zeros(2));
    }
}

} // verus!
