//! The `BaseAlu` chip: four lanes, each with one base-field operation.

use vstd::prelude::*;

use crate::babybear::{bb_add, bb_mul, bb_sub, f_add, f_mul, f_sub};
use crate::chips::{flag, is_one_operation, lanes, one_operation, residual, row_u32};
use crate::constraints::{paired_rows, pairing_error, row_check_outcome, walk_rows, RowCheck};
use crate::residuals::{fails, Outcome, ResidualLog, Section};
use crate::rows::{table_canonical, RowProvider, TableModel};
use crate::walk_error::{lemma_ran_failed, ran, WalkError, WalkErrorView};

verus! {

/// The residuals of one lane: values `(out, in1, in2)`, and metadata of three addresses, the four
/// flags for addition, subtraction, multiplication and division, and a multiplicity.
pub open spec fn base_lane(v: Seq<u32>, m: Seq<u32>) -> Seq<u32> {
    let (out, in1, in2) = (v[0], v[1], v[2]);
    let (is_add, is_sub, is_mul, is_div) = (m[3], m[4], m[5], m[6]);
    let sum = f_add(f_add(is_add, is_sub), f_add(is_mul, is_div));
    seq![
        flag(one_operation(is_add, is_sub, is_mul, is_div)),
        flag(
            {
                &&& f_mul(is_add, f_sub(out, f_add(in1, in2))) == 0
                &&& f_mul(is_sub, f_sub(out, f_sub(in1, in2))) == 0
                &&& f_mul(is_mul, f_sub(out, f_mul(in1, in2))) == 0
                &&& f_mul(is_div, f_sub(in1, f_mul(out, in2))) == 0
            },
        ),
        flag(
            sum == 0 ==> {
                &&& out == 0
                &&& in1 == 0
                &&& in2 == 0
                &&& m[0] == 0
                &&& m[1] == 0
                &&& m[2] == 0
                &&& m[7] == 0
            },
        ),
    ]
}

/// The residuals of a row of four lanes.
pub open spec fn base_alu_residuals(main: Seq<u32>, pre: Seq<u32>) -> Seq<u32> {
    lanes(base_lane_at(main, pre), 4)
}

/// The residuals of a lane of a row, by lane number.
pub open spec fn base_lane_at(main: Seq<u32>, pre: Seq<u32>) -> spec_fn(int) -> Seq<u32> {
    |l: int| base_lane(main.subrange(3 * l, 3 * l + 3), pre.subrange(8 * l, 8 * l + 8))
}

pub struct BaseAlu;

impl RowCheck for BaseAlu {
    open spec fn residuals(&self, main: Seq<u32>, pre: Seq<u32>) -> Seq<u32> {
        base_alu_residuals(main, pre)
    }

    open spec fn accepts(&self, main_cols: nat, pre_cols: nat) -> bool {
        main_cols == 12 && pre_cols == 32
    }

    fn check(&self, main: &[u32], pre: &[u32]) -> (r: Vec<u32>) {
        let mut r: Vec<u32> = Vec::new();
        let mut lane: u32 = 0;
        while lane < 4
            invariant
                lane <= 4,
                main@.len() == 12,
                pre@.len() == 32,
                crate::babybear::canonical(main@),
                r@ == lanes(base_lane_at(main@, pre@), lane as nat),
            decreases 4 - lane,
        {
            let ghost done = r@;
            let v_off: u32 = lane * 3;
            let out: u32 = row_u32(main, v_off);
            let in1: u32 = row_u32(main, v_off + 1);
            let in2: u32 = row_u32(main, v_off + 2);
            let p_off: u32 = lane * 8;
            let addr_out: u32 = row_u32(pre, p_off);
            let addr_in1: u32 = row_u32(pre, p_off + 1);
            let addr_in2: u32 = row_u32(pre, p_off + 2);
            let is_add: u32 = row_u32(pre, p_off + 3);
            let is_sub: u32 = row_u32(pre, p_off + 4);
            let is_mul: u32 = row_u32(pre, p_off + 5);
            let is_div: u32 = row_u32(pre, p_off + 6);
            let mult: u32 = row_u32(pre, p_off + 7);
            let sum: u32 = bb_add(bb_add(is_add, is_sub), bb_add(is_mul, is_div));
            r.push(residual(is_one_operation(is_add, is_sub, is_mul, is_div)));
            let r_add: u32 = bb_mul(is_add, bb_sub(out, bb_add(in1, in2)));
            let r_sub: u32 = bb_mul(is_sub, bb_sub(out, bb_sub(in1, in2)));
            let r_mul: u32 = bb_mul(is_mul, bb_sub(out, bb_mul(in1, in2)));
            let r_div: u32 = bb_mul(is_div, bb_sub(in1, bb_mul(out, in2)));
            assert((r_add | r_sub | r_mul | r_div) == 0 <==> r_add == 0 && r_sub == 0 && r_mul == 0
                && r_div == 0) by (bit_vector);
            r.push(residual((r_add | r_sub | r_mul | r_div) == 0));
            let ok_pad = if sum == 0 {
                out == 0 && in1 == 0 && in2 == 0 && addr_out == 0 && addr_in1 == 0 && addr_in2 == 0
                    && mult == 0
            } else {
                true
            };
            r.push(residual(ok_pad));
            proof {
                let v = main@.subrange(3 * lane, 3 * lane + 3);
                let m = pre@.subrange(8 * lane, 8 * lane + 8);
                assert(r@ =~= done + base_lane(v, m));
                assert(base_lane_at(main@, pre@)(lane as int) == base_lane(v, m));
            }
            lane += 1;
        }
        r
    }
}

/// What walking the chip does.
pub open spec fn base_alu_outcome(tables: Map<Seq<char>, TableModel>) -> Outcome<WalkErrorView> {
    let main = "BaseAlu"@;
    let pre = "pre/BaseAlu"@;
    match pairing_error(tables, main, 12, pre, 32) {
        Some(e) => fails(e),
        None => row_check_outcome(
            BaseAlu,
            Section::BaseAlu,
            tables,
            main,
            Some(pre),
            tables[main].rows as nat,
        ),
    }
}

pub fn walk_base_alu<P: RowProvider>(p: &mut P, log: &mut ResidualLog) -> (r: Result<(), WalkError>)
    requires
        table_canonical(old(p).tables(), "BaseAlu"@),
        table_canonical(old(p).tables(), "pre/BaseAlu"@),
    ensures
        ran(*old(p), *final(p), old(log)@, final(log)@, r, base_alu_outcome(old(p).tables())),
{
    match paired_rows(p, "BaseAlu", 12, "pre/BaseAlu", 32) {
        Ok(_) => {},
        Err(e) => {
            proof {
                lemma_ran_failed(*p, log@, e);
            }
            return Err(e);
        },
    }
    walk_rows(p, log, &BaseAlu, Section::BaseAlu, "BaseAlu", Some("pre/BaseAlu"))
}

} // verus!
