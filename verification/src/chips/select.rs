//! The `Select` chip: `(out1, out2)` is `(in1, in2)`, or `(in2, in1)` where the bit is set.

use vstd::prelude::*;

use crate::babybear::{
    bb_add, bb_is_boolean, bb_mul, bb_one, bb_sub, f_add, f_is_boolean, f_mul, f_sub,
};
use crate::chips::{flag, lemma_difference_zero, residual, row_u32};
use crate::constraints::{paired_rows, pairing_error, row_check_outcome, walk_rows, RowCheck};
use crate::residuals::{fails, followed_by, Outcome, ResidualLog, Section};
use crate::rows::{table_canonical, RowProvider, TableModel};
use crate::walk_error::{
    lemma_ran_failed, lemma_ran_stopped, lemma_ran_then, ran, WalkError, WalkErrorView,
};

verus! {

/// `b` where the bit is set, else `a`.
pub open spec fn choice(bit: u32, a: u32, b: u32) -> u32 {
    f_add(f_mul(bit, b), f_mul(f_sub(1, bit), a))
}

/// The residuals of a main row `(bit, out1, out2, in1, in2)`.
pub open spec fn select_residuals(row: Seq<u32>) -> Seq<u32> {
    seq![
        flag(f_is_boolean(row[0])),
        flag(row[1] == choice(row[0], row[3], row[4])),
        flag(row[2] == choice(row[0], row[4], row[3])),
    ]
}

/// The residuals of a preprocessed row: the flag is 0 or 1, and a row without it is all zero.
pub open spec fn select_pre_residuals(row: Seq<u32>) -> Seq<u32> {
    seq![
        flag(f_is_boolean(row[0])),
        flag(row[0] == 0 ==> forall|c: int| 1 <= c < 8 ==> #[trigger] row[c] == 0),
    ]
}

/// The constraint on main rows.
pub struct SelectMain;

/// The constraint on preprocessed rows.
pub struct SelectPre;

impl RowCheck for SelectMain {
    open spec fn residuals(&self, main: Seq<u32>, pre: Seq<u32>) -> Seq<u32> {
        select_residuals(main)
    }

    open spec fn accepts(&self, main_cols: nat, pre_cols: nat) -> bool {
        main_cols == 5
    }

    fn check(&self, main: &[u32], pre: &[u32]) -> (r: Vec<u32>) {
        let bit: u32 = row_u32(main, 0);
        let out1: u32 = row_u32(main, 1);
        let out2: u32 = row_u32(main, 2);
        let in1: u32 = row_u32(main, 3);
        let in2: u32 = row_u32(main, 4);
        let not_bit: u32 = bb_sub(bb_one(), bit);
        let rhs1: u32 = bb_add(bb_mul(bit, in2), bb_mul(not_bit, in1));
        let rhs2: u32 = bb_add(bb_mul(bit, in1), bb_mul(not_bit, in2));
        proof {
            lemma_difference_zero(out1, rhs1);
            lemma_difference_zero(out2, rhs2);
        }
        let mut r: Vec<u32> = Vec::new();
        r.push(residual(bb_is_boolean(bit)));
        r.push(residual(bb_sub(out1, rhs1) == 0));
        r.push(residual(bb_sub(out2, rhs2) == 0));
        assert(r@ =~= select_residuals(main@));
        r
    }
}

impl RowCheck for SelectPre {
    open spec fn residuals(&self, main: Seq<u32>, pre: Seq<u32>) -> Seq<u32> {
        select_pre_residuals(main)
    }

    open spec fn accepts(&self, main_cols: nat, pre_cols: nat) -> bool {
        main_cols == 8
    }

    fn check(&self, main: &[u32], pre: &[u32]) -> (r: Vec<u32>) {
        let is_real: u32 = row_u32(main, 0);
        let mut ok = true;
        if is_real == 0 {
            let mut c: u32 = 1;
            while c < 8
                invariant
                    1 <= c <= 8,
                    main@.len() == 8,
                    ok == forall|k: int| 1 <= k < c ==> #[trigger] main@[k] == 0,
                decreases 8 - c,
            {
                ok = ok && row_u32(main, c) == 0;
                c += 1;
            }
        }
        let mut r: Vec<u32> = Vec::new();
        r.push(residual(bb_is_boolean(is_real)));
        r.push(residual(ok));
        assert(r@ =~= select_pre_residuals(main@));
        r
    }
}

/// What walking the chip does.
pub open spec fn select_outcome(tables: Map<Seq<char>, TableModel>) -> Outcome<WalkErrorView> {
    let main = "Select"@;
    let pre = "pre/Select"@;
    match pairing_error(tables, main, 5, pre, 8) {
        Some(e) => fails(e),
        None => {
            let rows = tables[main].rows as nat;
            followed_by(
                row_check_outcome(SelectMain, Section::Select, tables, main, None, rows),
                row_check_outcome(SelectPre, Section::Select, tables, pre, None, rows),
            )
        },
    }
}

/// Walks the chip: the constraint on all main rows, then the one on all preprocessed rows.
pub fn walk_select<P: RowProvider>(p: &mut P, log: &mut ResidualLog) -> (r: Result<(), WalkError>)
    requires
        table_canonical(old(p).tables(), "Select"@),
        table_canonical(old(p).tables(), "pre/Select"@),
    ensures
        ran(*old(p), *final(p), old(log)@, final(log)@, r, select_outcome(old(p).tables())),
{
    let ghost p0 = *p;
    let ghost log0 = log@;
    match paired_rows(p, "Select", 5, "pre/Select", 8) {
        Ok(_) => {},
        Err(e) => {
            proof {
                lemma_ran_failed(p0, log0, e);
            }
            return Err(e);
        },
    }
    let ghost tables = p.tables();
    let ghost rows = tables["Select"@].rows as nat;
    let ghost a = row_check_outcome(SelectMain, Section::Select, tables, "Select"@, None, rows);
    let ghost b = row_check_outcome(SelectPre, Section::Select, tables, "pre/Select"@, None, rows);
    match walk_rows(p, log, &SelectMain, Section::Select, "Select", None) {
        Ok(_) => {},
        Err(e) => {
            proof {
                lemma_ran_stopped(p0, *p, log0, log@, e, a, b);
            }
            return Err(e);
        },
    }
    let ghost p1 = *p;
    let ghost log1 = log@;
    let r = walk_rows(p, log, &SelectPre, Section::Select, "pre/Select", None);
    proof {
        lemma_ran_then(p0, p1, *p, log0, log1, log@, r, a, b);
    }
    r
}

} // verus!
