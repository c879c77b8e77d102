//! The `PublicValues` chip: at most one of eight position flags is set in a row.

use vstd::prelude::*;

use crate::babybear::{bb_add, bb_is_boolean, f_add, f_is_boolean};
use crate::chips::{flag, residual, row_u32};
use crate::constraints::{paired_rows, pairing_error, row_check_outcome, walk_rows, RowCheck};
use crate::residuals::{fails, Outcome, ResidualLog, Section};
use crate::rows::{table_canonical, RowProvider, TableModel};
use crate::walk_error::{lemma_ran_failed, ran, WalkError, WalkErrorView};

verus! {

/// The field sum of the first `n` values of a row.
pub open spec fn field_sum(row: Seq<u32>, n: nat) -> u32
    decreases n,
{
    if n == 0 {
        0
    } else {
        f_add(field_sum(row, (n - 1) as nat), row[n - 1])
    }
}

/// The residuals of a main row `(element)` and a preprocessed row of eight position flags, an
/// address and a multiplicity. Where no flag is set, element, address and multiplicity are zero.
pub open spec fn public_values_residuals(main: Seq<u32>, pre: Seq<u32>) -> Seq<u32> {
    let sum = field_sum(pre, 8);
    seq![
        flag(
            (forall|i: int| 0 <= i < 8 ==> f_is_boolean(#[trigger] pre[i])) && f_is_boolean(sum),
        ),
        flag(sum == 0 ==> main[0] == 0 && pre[8] == 0 && pre[9] == 0),
    ]
}

pub struct PublicValues;

impl RowCheck for PublicValues {
    open spec fn residuals(&self, main: Seq<u32>, pre: Seq<u32>) -> Seq<u32> {
        public_values_residuals(main, pre)
    }

    open spec fn accepts(&self, main_cols: nat, pre_cols: nat) -> bool {
        main_cols == 1 && pre_cols == 10
    }

    fn check(&self, main: &[u32], pre: &[u32]) -> (r: Vec<u32>) {
        let mut sum: u32 = 0;
        let mut ok = true;
        let mut i: u32 = 0;
        while i < 8
            invariant
                i <= 8,
                pre@.len() == 10,
                sum == field_sum(pre@, i as nat),
                ok == forall|k: int| 0 <= k < i ==> f_is_boolean(#[trigger] pre@[k]),
            decreases 8 - i,
        {
            let v: u32 = row_u32(pre, i);
            ok = bb_is_boolean(v) && ok;
            sum = bb_add(sum, v);
            i += 1;
        }
        let ok2 = if sum == 0 {
            row_u32(main, 0) == 0 && row_u32(pre, 8) == 0 && row_u32(pre, 9) == 0
        } else {
            true
        };
        let mut r: Vec<u32> = Vec::new();
        r.push(residual(bb_is_boolean(sum) && ok));
        r.push(residual(ok2));
        assert(r@ =~= public_values_residuals(main@, pre@));
        r
    }
}

/// What walking the chip does.
pub open spec fn public_values_outcome(tables: Map<Seq<char>, TableModel>) -> Outcome<
    WalkErrorView,
> {
    let main = "PublicValues"@;
    let pre = "pre/PublicValues"@;
    match pairing_error(tables, main, 1, pre, 10) {
        Some(e) => fails(e),
        None => row_check_outcome(
            PublicValues,
            Section::PublicValues,
            tables,
            main,
            Some(pre),
            tables[main].rows as nat,
        ),
    }
}

pub fn walk_public_values<P: RowProvider>(p: &mut P, log: &mut ResidualLog) -> (r: Result<
    (),
    WalkError,
>)
    requires
        table_canonical(old(p).tables(), "PublicValues"@),
        table_canonical(old(p).tables(), "pre/PublicValues"@),
    ensures
        ran(*old(p), *final(p), old(log)@, final(log)@, r, public_values_outcome(old(p).tables())),
{
    match paired_rows(p, "PublicValues", 1, "pre/PublicValues", 10) {
        Ok(_) => {},
        Err(e) => {
            proof {
                lemma_ran_failed(*p, log@, e);
            }
            return Err(e);
        },
    }
    walk_rows(
        p,
        log,
        &PublicValues,
        Section::PublicValues,
        "PublicValues",
        Some("pre/PublicValues"),
    )
}

} // verus!
