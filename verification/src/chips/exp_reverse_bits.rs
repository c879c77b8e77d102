//! The `ExpReverseBitsLen` chip: exponentiation by bits, most significant bit first.

use vstd::prelude::*;

use crate::babybear::{bb_mul, bb_one, bb_sub, f_mul, f_sub};
use crate::chips::{flag, residual, row_u32};
use crate::constraints::{
    paired_rows, pairing_error, transition_outcome, walk_transitions, TransitionCheck,
};
use crate::residuals::{fails, Outcome, ResidualLog, Section};
use crate::rows::{table_canonical, RowProvider, TableModel};
use crate::stream::zeros;
use crate::walk_error::{lemma_ran_failed, ran, WalkError, WalkErrorView};

verus! {

/// The residuals of a main row `(x, current_bit, prev_accum_sq, prev_accum_sq_mul, accum,
/// accum_sq, multiplier)` and a preprocessed row whose last three values are the flags `is_first`,
/// `is_last` and `is_real`. Each is a field product that has to vanish; the last two tie the row to
/// its successor.
pub open spec fn exp_reverse_bits_residuals(main: Seq<u32>, pre: Seq<u32>) -> Seq<u32> {
    let (x, bit, prev_sq, prev_sq_mul) = (main[0], main[1], main[2], main[3]);
    let (accum, accum_sq, multiplier) = (main[4], main[5], main[6]);
    let (is_first, is_real) = (pre[7], pre[9]);
    seq![
        flag(f_mul(f_mul(is_real, bit), f_sub(multiplier, x)) == 0),
        flag(f_mul(f_mul(is_real, f_sub(1, bit)), f_sub(multiplier, 1)) == 0),
        flag(f_mul(is_real, f_sub(prev_sq_mul, f_mul(prev_sq, multiplier))) == 0),
        flag(f_mul(is_first, f_sub(accum, multiplier)) == 0),
        flag(f_mul(f_mul(is_real, f_sub(1, is_first)), f_sub(accum, prev_sq_mul)) == 0),
        flag(f_mul(is_real, f_sub(accum_sq, f_mul(accum, accum))) == 0),
    ]
}

/// The residuals of a row and the rows that follow it: the base stays, and the square is handed on.
pub open spec fn exp_reverse_bits_links(
    main: Seq<u32>,
    pre: Seq<u32>,
    next_main: Seq<u32>,
    next_pre: Seq<u32>,
) -> Seq<u32> {
    let goes_on = f_mul(next_pre[9], f_sub(1, pre[8]));
    seq![
        flag(f_mul(goes_on, f_sub(main[0], next_main[0])) == 0),
        flag(f_mul(goes_on, f_sub(next_main[2], main[5])) == 0),
    ]
}

pub struct ExpReverseBits;

impl TransitionCheck for ExpReverseBits {
    open spec fn residuals(&self, row: u32, main: Seq<u32>, pre: Seq<u32>) -> Seq<u32> {
        exp_reverse_bits_residuals(main, pre)
    }

    open spec fn links(
        &self,
        main: Seq<u32>,
        pre: Seq<u32>,
        next_main: Seq<u32>,
        next_pre: Seq<u32>,
    ) -> Seq<u32> {
        exp_reverse_bits_links(main, pre, next_main, next_pre)
    }

    open spec fn num_links(&self) -> nat {
        2
    }

    open spec fn looks_at_next_pre(&self) -> bool {
        true
    }

    open spec fn accepts(&self, main_cols: nat, pre_cols: nat) -> bool {
        main_cols == 7 && pre_cols == 10
    }

    fn check(&self, row: u32, main: &[u32], pre: &[u32]) -> (r: Vec<u32>) {
        let x: u32 = row_u32(main, 0);
        let bit: u32 = row_u32(main, 1);
        let prev_sq: u32 = row_u32(main, 2);
        let prev_sq_mul: u32 = row_u32(main, 3);
        let accum: u32 = row_u32(main, 4);
        let accum_sq: u32 = row_u32(main, 5);
        let multiplier: u32 = row_u32(main, 6);
        let is_first: u32 = row_u32(pre, 7);
        let is_real: u32 = row_u32(pre, 9);
        let one: u32 = bb_one();
        let mut r: Vec<u32> = Vec::new();
        r.push(residual(bb_mul(bb_mul(is_real, bit), bb_sub(multiplier, x)) == 0));
        r.push(
            residual(bb_mul(bb_mul(is_real, bb_sub(one, bit)), bb_sub(multiplier, one)) == 0),
        );
        r.push(residual(bb_mul(is_real, bb_sub(prev_sq_mul, bb_mul(prev_sq, multiplier))) == 0));
        r.push(residual(bb_mul(is_first, bb_sub(accum, multiplier)) == 0));
        r.push(
            residual(
                bb_mul(bb_mul(is_real, bb_sub(one, is_first)), bb_sub(accum, prev_sq_mul)) == 0,
            ),
        );
        r.push(residual(bb_mul(is_real, bb_sub(accum_sq, bb_mul(accum, accum))) == 0));
        assert(r@ =~= exp_reverse_bits_residuals(main@, pre@));
        r
    }

    fn check_links(
        &self,
        main: &[u32],
        pre: &[u32],
        next_main: &[u32],
        next_pre: &[u32],
    ) -> (r: Vec<u32>) {
        let goes_on: u32 = bb_mul(row_u32(next_pre, 9), bb_sub(bb_one(), row_u32(pre, 8)));
        let x: u32 = row_u32(main, 0);
        let accum_sq: u32 = row_u32(main, 5);
        let next_x: u32 = row_u32(next_main, 0);
        let next_prev: u32 = row_u32(next_main, 2);
        let mut r: Vec<u32> = Vec::new();
        r.push(residual(bb_mul(goes_on, bb_sub(x, next_x)) == 0));
        r.push(residual(bb_mul(goes_on, bb_sub(next_prev, accum_sq)) == 0));
        assert(r@ =~= exp_reverse_bits_links(main@, pre@, next_main@, next_pre@));
        r
    }

    fn no_links(&self) -> (r: Vec<u32>) {
        let mut r: Vec<u32> = Vec::new();
        r.push(0);
        r.push(0);
        assert(r@ =~= zeros(2));
        r
    }

    fn wants_next_pre(&self) -> (r: bool) {
        true
    }
}

/// What walking the chip does.
pub open spec fn exp_reverse_bits_outcome(tables: Map<Seq<char>, TableModel>) -> Outcome<
    WalkErrorView,
> {
    let main = "ExpReverseBitsLen"@;
    let pre = "pre/ExpReverseBitsLen"@;
    match pairing_error(tables, main, 7, pre, 10) {
        Some(e) => fails(e),
        None => transition_outcome(
            ExpReverseBits,
            Section::ExpReverseBitsLen,
            tables,
            main,
            pre,
            tables[main].rows as nat,
        ),
    }
}

pub fn walk_exp_reverse_bits<P: RowProvider>(p: &mut P, log: &mut ResidualLog) -> (r: Result<
    (),
    WalkError,
>)
    requires
        table_canonical(old(p).tables(), "ExpReverseBitsLen"@),
        table_canonical(old(p).tables(), "pre/ExpReverseBitsLen"@),
    ensures
        ran(
            *old(p),
            *final(p),
            old(log)@,
            final(log)@,
            r,
            exp_reverse_bits_outcome(old(p).tables()),
        ),
{
    match paired_rows(p, "ExpReverseBitsLen", 7, "pre/ExpReverseBitsLen", 10) {
        Ok(_) => {},
        Err(e) => {
            proof {
                lemma_ran_failed(*p, log@, e);
            }
            return Err(e);
        },
    }
    walk_transitions(
        p,
        log,
        &ExpReverseBits,
        Section::ExpReverseBitsLen,
        "ExpReverseBitsLen",
        "pre/ExpReverseBitsLen",
    )
}

} // verus!
