//! The `BatchFRI` chip: a running sum of `alpha_pow * (p_at_z - p_at_x)`.

use vstd::prelude::*;

use crate::babybear::{bb_is_boolean, canonical, f_is_boolean};
use crate::chips::{flag, residual, row_u32};
use crate::constraints::{
    paired_rows, pairing_error, transition_outcome, walk_transitions, TransitionCheck,
};
use crate::extension::{
    e_add, e_base, e_block, e_mul, e_sub, ext_add, ext_eq, ext_from_base_u32, ext_from_row, ext_mul,
    ext_sub, BBExt,
};
use crate::residuals::{fails, Outcome, ResidualLog, Section};
use crate::rows::{table_canonical, RowProvider, TableModel};
use crate::stream::zeros;
use crate::walk_error::{lemma_ran_failed, ran, WalkError, WalkErrorView};

verus! {

/// The accumulator of a main row `(acc, alpha_pow, p_at_z, p_at_x)`.
pub open spec fn accumulator(main: Seq<u32>) -> BBExt {
    e_block(main, 0)
}

/// The term that a main row adds: `alpha_pow * (p_at_z - p_at_x)`.
pub open spec fn term(main: Seq<u32>) -> BBExt {
    e_mul(e_block(main, 4), e_sub(e_block(main, 8), e_base(main[12])))
}

/// The residuals of a row by itself. The first row starts a sum.
pub open spec fn batch_fri_residuals(row: u32, main: Seq<u32>, pre: Seq<u32>) -> Seq<u32> {
    seq![
        flag(f_is_boolean(pre[0])),
        flag(f_is_boolean(pre[1])),
        flag(row == 0 ==> accumulator(main) == term(main)),
    ]
}

/// The residual of a row and the main row that follows it: after a row that ends its sum the next one
/// starts anew, after any other row it goes on.
pub open spec fn batch_fri_links(main: Seq<u32>, pre: Seq<u32>, next: Seq<u32>) -> Seq<u32> {
    seq![
        flag(
            accumulator(next) == (if pre[1] == 1 {
                term(next)
            } else {
                e_add(accumulator(main), term(next))
            }),
        ),
    ]
}

pub struct BatchFri;

fn term_of(main: &[u32]) -> (r: BBExt)
    requires
        main@.len() == 13,
        canonical(main@),
    ensures
        r == term(main@),
        r.wf(),
{
    let alpha_pow = ext_from_row(main, 4);
    let p_at_z = ext_from_row(main, 8);
    let p_at_x = ext_from_base_u32(row_u32(main, 12));
    ext_mul(alpha_pow, ext_sub(p_at_z, p_at_x))
}

impl TransitionCheck for BatchFri {
    open spec fn residuals(&self, row: u32, main: Seq<u32>, pre: Seq<u32>) -> Seq<u32> {
        batch_fri_residuals(row, main, pre)
    }

    open spec fn links(
        &self,
        main: Seq<u32>,
        pre: Seq<u32>,
        next_main: Seq<u32>,
        next_pre: Seq<u32>,
    ) -> Seq<u32> {
        batch_fri_links(main, pre, next_main)
    }

    open spec fn num_links(&self) -> nat {
        1
    }

    open spec fn looks_at_next_pre(&self) -> bool {
        false
    }

    open spec fn accepts(&self, main_cols: nat, pre_cols: nat) -> bool {
        main_cols == 13 && pre_cols == 6
    }

    fn check(&self, row: u32, main: &[u32], pre: &[u32]) -> (r: Vec<u32>) {
        let acc = ext_from_row(main, 0);
        let expected = term_of(main);
        let first_ok = if row == 0 {
            ext_eq(&acc, &expected)
        } else {
            true
        };
        let mut r: Vec<u32> = Vec::new();
        r.push(residual(bb_is_boolean(row_u32(pre, 0))));
        r.push(residual(bb_is_boolean(row_u32(pre, 1))));
        r.push(residual(first_ok));
        assert(r@ =~= batch_fri_residuals(row, main@, pre@));
        r
    }

    fn check_links(
        &self,
        main: &[u32],
        pre: &[u32],
        next_main: &[u32],
        next_pre: &[u32],
    ) -> (r: Vec<u32>) {
        let next_acc = ext_from_row(next_main, 0);
        let next_expected = term_of(next_main);
        let want = if row_u32(pre, 1) == 1 {
            next_expected
        } else {
            ext_add(ext_from_row(main, 0), next_expected)
        };
        let mut r: Vec<u32> = Vec::new();
        r.push(residual(ext_eq(&next_acc, &want)));
        assert(r@ =~= batch_fri_links(main@, pre@, next_main@));
        r
    }

    fn no_links(&self) -> (r: Vec<u32>) {
        let mut r: Vec<u32> = Vec::new();
        r.push(0);
        assert(r@ =~= zeros(1));
        r
    }

    fn wants_next_pre(&self) -> (r: bool) {
        false
    }
}

/// What walking the chip does.
pub open spec fn batch_fri_outcome(tables: Map<Seq<char>, TableModel>) -> Outcome<WalkErrorView> {
    let main = "BatchFRI"@;
    let pre = "pre/BatchFRI"@;
    match pairing_error(tables, main, 13, pre, 6) {
        Some(e) => fails(e),
        None => transition_outcome(
            BatchFri,
            Section::BatchFri,
            tables,
            main,
            pre,
            tables[main].rows as nat,
        ),
    }
}

pub fn walk_batch_fri<P: RowProvider>(p: &mut P, log: &mut ResidualLog) -> (r: Result<
    (),
    WalkError,
>)
    requires
        table_canonical(old(p).tables(), "BatchFRI"@),
        table_canonical(old(p).tables(), "pre/BatchFRI"@),
    ensures
        ran(*old(p), *final(p), old(log)@, final(log)@, r, batch_fri_outcome(old(p).tables())),
{
    match paired_rows(p, "BatchFRI", 13, "pre/BatchFRI", 6) {
        Ok(_) => {},
        Err(e) => {
            proof {
                lemma_ran_failed(*p, log@, e);
            }
            return Err(e);
        },
    }
    walk_transitions(p, log, &BatchFri, Section::BatchFri, "BatchFRI", "pre/BatchFRI")
}

} // verus!
