//! The `ExtAlu` chip: lanes of extension-field operations.

use vstd::prelude::*;

use crate::babybear::canonical;
use crate::chips::{flag, is_one_operation, lanes, one_operation, residual, row_u32};
use crate::constraints::{row_check_outcome, walk_rows, RowCheck};
use crate::extension::{
    e_add, e_block, e_mul, e_sub, ext_add, ext_eq, ext_from_row, ext_mul, ext_sub,
};
use crate::residuals::{fails, Outcome, ResidualLog, Section};
use crate::rows::{table_canonical, RowProvider, TableModel};
use crate::walk_error::{lemma_ran_failed, ran, WalkError, WalkErrorView};

verus! {

/// The residuals of lane `l`: values `(out, in1, in2)`, an extension element each, and metadata of
/// three addresses, the four flags for addition, subtraction, multiplication and division, and a
/// multiplicity. The padding of these lanes is not constrained, so the third residual is zero.
pub open spec fn ext_lane(main: Seq<u32>, pre: Seq<u32>, l: int) -> Seq<u32> {
    let out = e_block(main, 12 * l);
    let in1 = e_block(main, 12 * l + 4);
    let in2 = e_block(main, 12 * l + 8);
    let (is_add, is_sub) = (pre[8 * l + 3], pre[8 * l + 4]);
    let (is_mul, is_div) = (pre[8 * l + 5], pre[8 * l + 6]);
    seq![
        flag(one_operation(is_add, is_sub, is_mul, is_div)),
        flag(
            {
                &&& is_add != 0 ==> out == e_add(in1, in2)
                &&& is_sub != 0 ==> out == e_sub(in1, in2)
                &&& is_mul != 0 ==> out == e_mul(in1, in2)
                &&& is_div != 0 ==> in1 == e_mul(out, in2)
            },
        ),
        0,
    ]
}

/// The residuals of a row of `n` lanes.
pub open spec fn ext_alu_residuals(main: Seq<u32>, pre: Seq<u32>, n: nat) -> Seq<u32> {
    lanes(|l: int| ext_lane(main, pre, l), n)
}

pub struct ExtAlu {
    pub lanes: u32,
}

impl RowCheck for ExtAlu {
    open spec fn residuals(&self, main: Seq<u32>, pre: Seq<u32>) -> Seq<u32> {
        ext_alu_residuals(main, pre, self.lanes as nat)
    }

    open spec fn accepts(&self, main_cols: nat, pre_cols: nat) -> bool {
        main_cols == 12 * self.lanes && pre_cols == 8 * self.lanes && main_cols <= u32::MAX
    }

    fn check(&self, main: &[u32], pre: &[u32]) -> (r: Vec<u32>) {
        let mut r: Vec<u32> = Vec::new();
        let mut lane: u32 = 0;
        let ghost f = |l: int| ext_lane(main@, pre@, l);
        while lane < self.lanes
            invariant
                lane <= self.lanes,
                main@.len() == 12 * self.lanes,
                pre@.len() == 8 * self.lanes,
                main@.len() <= u32::MAX,
                canonical(main@),
                f == (|l: int| ext_lane(main@, pre@, l)),
                r@ == lanes(f, lane as nat),
            decreases self.lanes - lane,
        {
            let ghost done = r@;
            let v_off: u32 = lane * 12;
            let out = ext_from_row(main, v_off as usize);
            let in1 = ext_from_row(main, (v_off + 4) as usize);
            let in2 = ext_from_row(main, (v_off + 8) as usize);
            let p_off: u32 = lane * 8;
            let is_add: u32 = row_u32(pre, p_off + 3);
            let is_sub: u32 = row_u32(pre, p_off + 4);
            let is_mul: u32 = row_u32(pre, p_off + 5);
            let is_div: u32 = row_u32(pre, p_off + 6);
            let ok_add = ext_eq(&out, &ext_add(in1, in2));
            let ok_sub = ext_eq(&out, &ext_sub(in1, in2));
            let ok_mul = ext_eq(&out, &ext_mul(in1, in2));
            let ok_div = ext_eq(&in1, &ext_mul(out, in2));
            let fail = (is_add != 0 && !ok_add) || (is_sub != 0 && !ok_sub) || (is_mul != 0
                && !ok_mul) || (is_div != 0 && !ok_div);
            r.push(residual(is_one_operation(is_add, is_sub, is_mul, is_div)));
            r.push(residual(!fail));
            r.push(0);
            proof {
                assert(r@ =~= done + ext_lane(main@, pre@, lane as int));
                assert(f(lane as int) == ext_lane(main@, pre@, lane as int));
            }
            lane += 1;
        }
        r
    }
}

/// What is wrong with the dimensions of the chip's tables, if anything.
pub open spec fn ext_alu_error(tables: Map<Seq<char>, TableModel>) -> Option<WalkErrorView> {
    let main = "ExtAlu"@;
    let pre = "pre/ExtAlu"@;
    if !tables.contains_key(main) {
        Some(WalkErrorView::MissingTable(main))
    } else if !tables.contains_key(pre) {
        Some(WalkErrorView::MissingTable(pre))
    } else if tables[pre].cols % 8 != 0 {
        Some(
            WalkErrorView::ColumnGranularity {
                table: pre,
                factor: 8,
                got: tables[pre].cols as nat,
            },
        )
    } else if tables[main].cols != tables[pre].cols / 8 * 12 {
        Some(
            WalkErrorView::ColumnCount {
                table: main,
                expected: (tables[pre].cols / 8 * 12) as nat,
                got: tables[main].cols as nat,
            },
        )
    } else if tables[main].rows != tables[pre].rows {
        Some(
            WalkErrorView::RowMismatch {
                table: main,
                rows: tables[main].rows as nat,
                other: pre,
                other_rows: tables[pre].rows as nat,
            },
        )
    } else {
        None
    }
}

/// What walking the chip does. The preprocessed table fixes the number of lanes.
pub open spec fn ext_alu_outcome(tables: Map<Seq<char>, TableModel>) -> Outcome<WalkErrorView> {
    let main = "ExtAlu"@;
    let pre = "pre/ExtAlu"@;
    match ext_alu_error(tables) {
        Some(e) => fails(e),
        None => row_check_outcome(
            ExtAlu { lanes: tables[pre].cols / 8 },
            Section::ExtAlu,
            tables,
            main,
            Some(pre),
            tables[main].rows as nat,
        ),
    }
}

/// Checks the dimensions of the chip's tables; gives the number of lanes.
fn ext_alu_lanes<P: RowProvider>(p: &P) -> (r: Result<u32, WalkError>)
    ensures
        match r {
            Ok(n) => ext_alu_error(p.tables()) is None && n == p.tables()["pre/ExtAlu"@].cols / 8,
            Err(e) => ext_alu_error(p.tables()) == Some(e@),
        },
{
    let (rows, cols) = match p.dims("ExtAlu") {
        Some(d) => d,
        None => {
            return Err(WalkError::MissingTable("ExtAlu".to_owned()));
        },
    };
    let (prows, pcols) = match p.dims("pre/ExtAlu") {
        Some(d) => d,
        None => {
            return Err(WalkError::MissingTable("pre/ExtAlu".to_owned()));
        },
    };
    if pcols % 8 != 0 {
        return Err(
            WalkError::ColumnGranularity { table: "pre/ExtAlu".to_owned(), factor: 8, got: pcols as u64 },
        );
    }
    let n: u32 = pcols / 8;
    let expected: u64 = n as u64 * 12;
    if cols as u64 != expected {
        return Err(WalkError::ColumnCount { table: "ExtAlu".to_owned(), expected, got: cols as u64 });
    }
    if rows != prows {
        return Err(
            WalkError::RowMismatch {
                table: "ExtAlu".to_owned(),
                rows,
                other: "pre/ExtAlu".to_owned(),
                other_rows: prows,
            },
        );
    }
    Ok(n)
}

pub fn walk_ext_alu<P: RowProvider>(p: &mut P, log: &mut ResidualLog) -> (r: Result<(), WalkError>)
    requires
        table_canonical(old(p).tables(), "ExtAlu"@),
        table_canonical(old(p).tables(), "pre/ExtAlu"@),
    ensures
        ran(*old(p), *final(p), old(log)@, final(log)@, r, ext_alu_outcome(old(p).tables())),
{
    let n: u32 = match ext_alu_lanes(p) {
        Ok(n) => n,
        Err(e) => {
            proof {
                lemma_ran_failed(*p, log@, e);
            }
            return Err(e);
        },
    };
    let check = ExtAlu { lanes: n };
    walk_rows(p, log, &check, Section::ExtAlu, "ExtAlu", Some("pre/ExtAlu"))
}

} // verus!
